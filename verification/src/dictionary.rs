//! Word lists backed by a single prefix trie, in two tiers.
//!
//! Every word of the accepted list is taken when the player traces it; only the
//! smaller common tier is used to build boards and to report missed words. The
//! trie lets the solver drop a branch the moment a path stops spelling a prefix.

use vstd::prelude::*;
use vstd::string::StringSliceAdditionalSpecFns;

verus! {

pub const MIN_WORD_LEN: usize = 3;
pub const MAX_WORD_LEN: usize = 16;

pub type NodeId = u32;

struct Node {
    /// `(letter, child)` pairs, sorted by letter.
    children: Vec<(u8, NodeId)>,
    is_word: bool,
    /// Part of the curated tier, worth putting on a scorecard.
    is_common: bool,
}

pub struct Dictionary {
    nodes: Vec<Node>,
    word_count: usize,
    common_count: usize,
    /// The letters spelled on the way from the root to each node.
    paths: Ghost<Seq<Seq<u8>>>,
    accepted: Ghost<Set<Seq<u8>>>,
    common: Ghost<Set<Seq<u8>>>,
}


/// ASCII whitespace, as `char::is_whitespace` sees it.
pub open spec fn is_ascii_space(b: u8) -> bool {
    b == 9 || b == 10 || b == 11 || b == 12 || b == 13 || b == 32
}

/// Bytes of the whitespace character `s` starts with (its UTF-8 encoding),
/// or 0 when it starts with none.
pub open spec fn space_prefix_len(s: Seq<u8>) -> nat {
    if s.len() >= 1 && is_ascii_space(s[0]) {
        1
    } else if s.len() >= 2 && s[0] == 0xC2 && (s[1] == 0x85 || s[1] == 0xA0) {
        2
    } else if s.len() >= 3 && s[0] == 0xE1 && s[1] == 0x9A && s[2] == 0x80 {
        3
    } else if s.len() >= 3 && s[0] == 0xE2 && s[1] == 0x80 && ((0x80 <= s[2] && s[2] <= 0x8A)
        || s[2] == 0xA8 || s[2] == 0xA9 || s[2] == 0xAF) {
        3
    } else if s.len() >= 3 && s[0] == 0xE2 && s[1] == 0x81 && s[2] == 0x9F {
        3
    } else if s.len() >= 3 && s[0] == 0xE3 && s[1] == 0x80 && s[2] == 0x80 {
        3
    } else {
        0
    }
}

/// Bytes of the whitespace character `s` ends with, or 0.
pub open spec fn space_suffix_len(s: Seq<u8>) -> nat {
    let n = s.len() as int;
    if n >= 1 && is_ascii_space(s[n - 1]) {
        1
    } else if n >= 2 && s[n - 2] == 0xC2 && (s[n - 1] == 0x85 || s[n - 1] == 0xA0) {
        2
    } else if n >= 3 && s[n - 3] == 0xE1 && s[n - 2] == 0x9A && s[n - 1] == 0x80 {
        3
    } else if n >= 3 && s[n - 3] == 0xE2 && s[n - 2] == 0x80 && ((0x80 <= s[n - 1] && s[n - 1]
        <= 0x8A) || s[n - 1] == 0xA8 || s[n - 1] == 0xA9 || s[n - 1] == 0xAF) {
        3
    } else if n >= 3 && s[n - 3] == 0xE2 && s[n - 2] == 0x81 && s[n - 1] == 0x9F {
        3
    } else if n >= 3 && s[n - 3] == 0xE3 && s[n - 2] == 0x80 && s[n - 1] == 0x80 {
        3
    } else {
        0
    }
}

/// Length of the run of whitespace characters at the start of `s`.
pub open spec fn leading_space(s: Seq<u8>) -> nat
    decreases s.len(),
{
    let k = space_prefix_len(s);
    if k > 0 && k <= s.len() {
        k + leading_space(s.skip(k as int))
    } else {
        0
    }
}

/// Length of the run of whitespace characters at the end of `s`.
pub open spec fn trailing_space(s: Seq<u8>) -> nat
    decreases s.len(),
{
    let k = space_suffix_len(s);
    if k > 0 && k <= s.len() {
        k + trailing_space(s.take(s.len() - k))
    } else {
        0
    }
}

/// `s` with leading and trailing whitespace removed, as `str::trim` does.
pub open spec fn trimmed(s: Seq<u8>) -> Seq<u8> {
    let t = s.skip(leading_space(s) as int);
    t.take(t.len() - trailing_space(t))
}

/// ASCII upper case to lower case; every other byte unchanged.
pub open spec fn lower_byte(b: u8) -> u8 {
    if 65 <= b <= 90 {
        (b + 32) as u8
    } else {
        b
    }
}

pub open spec fn lowered(s: Seq<u8>) -> Seq<u8> {
    s.map_values(|b: u8| lower_byte(b))
}

pub open spec fn is_lower_letter(b: u8) -> bool {
    97 <= b <= 122
}

/// What a line of a word list contributes: its trimmed, lower-cased text, if
/// that is 3 to 16 letters a-z.
pub open spec fn list_word(line: Seq<u8>) -> Option<Seq<u8>> {
    let w = lowered(trimmed(line));
    if MIN_WORD_LEN <= w.len() <= MAX_WORD_LEN && (forall|i: int| 0 <= i < w.len() ==> is_lower_letter(#[trigger] w[i])) {
        Some(w)
    } else {
        None
    }
}

/// `t[s..e]` is a whole line of `t`: it runs between line breaks.
pub open spec fn is_line(t: Seq<u8>, s: int, e: int) -> bool {
    &&& 0 <= s <= e <= t.len()
    &&& (s == 0 || t[s - 1] == 10)
    &&& (e == t.len() || t[e] == 10)
    &&& forall|k: int| s <= k < e ==> t[k] != 10
}

/// The words of the lines of `t` that start before `upto`.
pub open spec fn list_words_before(t: Seq<u8>, upto: int) -> Set<Seq<u8>> {
    Set::new(
        |w: Seq<u8>|
            exists|s: int, e: int|
                #![trigger is_line(t, s, e), list_word(t.subrange(s, e))]
                is_line(t, s, e) && s < upto && list_word(t.subrange(s, e)) == Some(w),
    )
}

/// Every word a list's text holds, one per line.
pub open spec fn list_words(t: Seq<u8>) -> Set<Seq<u8>> {
    list_words_before(t, t.len() as int + 1)
}


/// The length of the whitespace character at `t[i..end]`'s start, or 0.
pub(crate) fn space_prefix_at(t: &[u8], i: usize, end: usize) -> (k: usize)
    requires
        i <= end <= t@.len(),
    ensures
        k == space_prefix_len(t@.subrange(i as int, end as int)),
{
    let ghost s = t@.subrange(i as int, end as int);
    let n = end - i;
    if n >= 1 && (t[i] == 9 || t[i] == 10 || t[i] == 11 || t[i] == 12 || t[i] == 13 || t[i] == 32) {
        1
    } else if n >= 2 && t[i] == 0xC2 && (t[i + 1] == 0x85 || t[i + 1] == 0xA0) {
        2
    } else if n >= 3 && t[i] == 0xE1 && t[i + 1] == 0x9A && t[i + 2] == 0x80 {
        3
    } else if n >= 3 && t[i] == 0xE2 && t[i + 1] == 0x80 && ((0x80 <= t[i + 2] && t[i + 2] <= 0x8A)
        || t[i + 2] == 0xA8 || t[i + 2] == 0xA9 || t[i + 2] == 0xAF) {
        3
    } else if n >= 3 && t[i] == 0xE2 && t[i + 1] == 0x81 && t[i + 2] == 0x9F {
        3
    } else if n >= 3 && t[i] == 0xE3 && t[i + 1] == 0x80 && t[i + 2] == 0x80 {
        3
    } else {
        0
    }
}

/// The length of the whitespace character `t[lo..j]` ends with, or 0.
pub(crate) fn space_suffix_before(t: &[u8], lo: usize, j: usize) -> (k: usize)
    requires
        lo <= j <= t@.len(),
    ensures
        k == space_suffix_len(t@.subrange(lo as int, j as int)),
{
    let n = j - lo;
    if n >= 1 && (t[j - 1] == 9 || t[j - 1] == 10 || t[j - 1] == 11 || t[j - 1] == 12 || t[j - 1] == 13
        || t[j - 1] == 32) {
        1
    } else if n >= 2 && t[j - 2] == 0xC2 && (t[j - 1] == 0x85 || t[j - 1] == 0xA0) {
        2
    } else if n >= 3 && t[j - 3] == 0xE1 && t[j - 2] == 0x9A && t[j - 1] == 0x80 {
        3
    } else if n >= 3 && t[j - 3] == 0xE2 && t[j - 2] == 0x80 && ((0x80 <= t[j - 1] && t[j - 1]
        <= 0x8A) || t[j - 1] == 0xA8 || t[j - 1] == 0xA9 || t[j - 1] == 0xAF) {
        3
    } else if n >= 3 && t[j - 3] == 0xE2 && t[j - 2] == 0x81 && t[j - 1] == 0x9F {
        3
    } else if n >= 3 && t[j - 3] == 0xE3 && t[j - 2] == 0x80 && t[j - 1] == 0x80 {
        3
    } else {
        0
    }
}

/// Where the trimmed text of `t[start..end]` lies.
pub(crate) fn trim_bounds(t: &[u8], start: usize, end: usize) -> (bounds: (usize, usize))
    requires
        start <= end <= t@.len(),
    ensures
        start <= bounds.0 <= bounds.1 <= end,
        t@.subrange(bounds.0 as int, bounds.1 as int) == trimmed(t@.subrange(start as int, end as int)),
{
    let ghost seg = t@.subrange(start as int, end as int);
    let mut lo = start;
    proof {
        assert(seg.skip(0) =~= seg);
    }
    loop
        invariant
            start <= lo <= end <= t@.len(),
            seg == t@.subrange(start as int, end as int),
            leading_space(seg) == (lo - start) + leading_space(seg.skip(lo - start)),
        ensures
            start <= lo <= end,
            leading_space(seg) == (lo - start) + leading_space(seg.skip(lo - start)),
            space_prefix_len(t@.subrange(lo as int, end as int)) == 0,
        decreases end - lo,
    {
        let k = space_prefix_at(t, lo, end);
        proof {
            assert(seg.skip(lo - start) =~= t@.subrange(lo as int, end as int));
        }
        if k == 0 {
            break;
        }
        proof {
            let r = seg.skip(lo - start);
            assert(r.skip(k as int) =~= seg.skip(lo - start + k));
        }
        lo = lo + k;
    }
    let ghost rest = seg.skip(lo - start);
    proof {
        assert(rest =~= t@.subrange(lo as int, end as int));
        assert(leading_space(rest) == 0);
    }
    let mut hi = end;
    proof {
        assert(rest.take(rest.len() as int) =~= rest);
    }
    loop
        invariant
            start <= lo <= hi <= end <= t@.len(),
            rest == t@.subrange(lo as int, end as int),
            trailing_space(rest) == (end - hi) + trailing_space(rest.take(hi - lo)),
        ensures
            lo <= hi <= end,
            trailing_space(rest) == (end - hi) + trailing_space(rest.take(hi - lo)),
            space_suffix_len(t@.subrange(lo as int, hi as int)) == 0,
        decreases hi - lo,
    {
        let k = space_suffix_before(t, lo, hi);
        proof {
            assert(rest.take(hi - lo) =~= t@.subrange(lo as int, hi as int));
        }
        if k == 0 {
            break;
        }
        proof {
            let r = rest.take(hi - lo);
            assert(r.take(r.len() - k) =~= rest.take(hi - lo - k));
        }
        hi = hi - k;
    }
    proof {
        assert(rest.take(hi - lo) =~= t@.subrange(lo as int, hi as int));
        assert(trailing_space(rest.take(hi - lo)) == 0);
        assert(trimmed(seg) =~= rest.take(rest.len() - trailing_space(rest)));
    }
    (lo, hi)
}

/// The word a line of a list contributes, if any.
fn line_word(t: &[u8], start: usize, end: usize) -> (word: Option<Vec<u8>>)
    requires
        start <= end <= t@.len(),
    ensures
        match word {
            Some(w) => list_word(t@.subrange(start as int, end as int)) == Some(w@),
            None => list_word(t@.subrange(start as int, end as int)) is None,
        },
{
    let (lo, hi) = trim_bounds(t, start, end);
    let ghost w = lowered(trimmed(t@.subrange(start as int, end as int)));
    let n = hi - lo;
    if n < MIN_WORD_LEN || n > MAX_WORD_LEN {
        return None;
    }
    let mut out: Vec<u8> = Vec::new();
    let mut i = lo;
    while i < hi
        invariant
            start <= lo <= i <= hi <= end <= t@.len(),
            t@.subrange(lo as int, hi as int) == trimmed(t@.subrange(start as int, end as int)),
            w == lowered(trimmed(t@.subrange(start as int, end as int))),
            out@ == w.take(i - lo),
            forall|k: int| 0 <= k < out@.len() ==> is_lower_letter(#[trigger] out@[k]),
        decreases hi - i,
    {
        let b = t[i];
        let l = if 65 <= b && b <= 90 { b + 32 } else { b };
        proof {
            assert(w[i - lo] == lower_byte(t@[i as int]));
        }
        if !(97 <= l && l <= 122) {
            proof {
                assert(!is_lower_letter(w[i - lo]));
            }
            return None;
        }
        out.push(l);
        proof {
            assert(w.take(i + 1 - lo) =~= w.take(i - lo).push(l));
        }
        i += 1;
    }
    proof {
        assert(w.take(hi - lo) =~= w);
    }
    Some(out)
}

/// Between one line's start and the next, no other line starts: the words of
/// lines starting before `e + 1` are those before `s` and this line's.
proof fn lemma_next_line(t: Seq<u8>, s: int, e: int)
    requires
        is_line(t, s, e),
    ensures
        forall|w: Seq<u8>|
            list_words_before(t, e + 1).contains(w) <==> (list_words_before(t, s).contains(w)
                || list_word(t.subrange(s, e)) == Some(w)),
{
    assert forall|w: Seq<u8>| list_words_before(t, e + 1).contains(w) implies (list_words_before(
        t,
        s,
    ).contains(w) || list_word(t.subrange(s, e)) == Some(w)) by {
        let (s2, e2) = choose|s2: int, e2: int|
            #![trigger is_line(t, s2, e2), list_word(t.subrange(s2, e2))]
            is_line(t, s2, e2) && s2 < e + 1 && list_word(t.subrange(s2, e2)) == Some(w);
        if s2 >= s {
            if s2 > s {
                assert(t[s2 - 1] != 10);
                assert(false);
            }
            lemma_line_end_unique(t, s, e, e2);
        }
    }
    assert forall|w: Seq<u8>| (list_words_before(t, s).contains(w) || list_word(t.subrange(s, e)) == Some(w))
        implies list_words_before(t, e + 1).contains(w) by {
        if list_word(t.subrange(s, e)) == Some(w) {
            assert(is_line(t, s, e) && s < e + 1);
        } else {
            let (s2, e2) = choose|s2: int, e2: int|
                #![trigger is_line(t, s2, e2), list_word(t.subrange(s2, e2))]
                is_line(t, s2, e2) && s2 < s && list_word(t.subrange(s2, e2)) == Some(w);
            assert(is_line(t, s2, e2) && s2 < e + 1);
        }
    }
}

/// A line that starts at `s` ends at the first line break after it.
proof fn lemma_line_end_unique(t: Seq<u8>, s: int, e1: int, e2: int)
    requires
        is_line(t, s, e1),
        is_line(t, s, e2),
    ensures
        e1 == e2,
{
    if e1 < e2 {
        assert(t[e1] == 10);
    } else if e2 < e1 {
        assert(t[e2] == 10);
    }
}

/// The line that starts at the very end of a text is empty, and holds no word.
proof fn lemma_last_line_empty(t: Seq<u8>)
    ensures
        forall|w: Seq<u8>|
            list_words_before(t, t.len() as int + 1).contains(w) <==> list_words_before(t, t.len() as int).contains(w),
{
    assert forall|w: Seq<u8>| list_words_before(t, t.len() as int + 1).contains(w) implies list_words_before(
        t,
        t.len() as int,
    ).contains(w) by {
        let (s2, e2) = choose|s2: int, e2: int|
            #![trigger is_line(t, s2, e2), list_word(t.subrange(s2, e2))]
            is_line(t, s2, e2) && s2 < t.len() + 1 && list_word(t.subrange(s2, e2)) == Some(w);
        if s2 == t.len() {
            assert(t.subrange(s2, e2) =~= Seq::<u8>::empty());
            assert(trimmed(Seq::<u8>::empty()).len() == 0);
        }
    }
}

pub(crate) proof fn lemma_leading_space_len(s: Seq<u8>)
    ensures
        leading_space(s) <= s.len(),
    decreases s.len(),
{
    let k = space_prefix_len(s);
    if k > 0 && k <= s.len() {
        lemma_leading_space_len(s.skip(k as int));
    }
}

pub(crate) proof fn lemma_trailing_space_len(s: Seq<u8>)
    ensures
        trailing_space(s) <= s.len(),
    decreases s.len(),
{
    let k = space_suffix_len(s);
    if k > 0 && k <= s.len() {
        lemma_trailing_space_len(s.take(s.len() - k));
    }
}

/// Trimming never lengthens a line.
proof fn lemma_trimmed_len(s: Seq<u8>)
    ensures
        trimmed(s).len() <= s.len(),
        lowered(trimmed(s)).len() <= s.len(),
{
    lemma_leading_space_len(s);
    let t = s.skip(leading_space(s) as int);
    lemma_trailing_space_len(t);
}

/// Some word of `s` starts with `p`.
pub open spec fn prefix_in(s: Set<Seq<u8>>, p: Seq<u8>) -> bool {
    exists|w: Seq<u8>| #[trigger] s.contains(w) && p.is_prefix_of(w)
}

/// `p` is `q` with one more letter on the end.
pub open spec fn is_child_path(q: Seq<u8>, p: Seq<u8>) -> bool {
    p.len() == q.len() + 1 && p.take(q.len() as int) == q
}

impl Dictionary {
    /// Every word the list accepts, as lowercase bytes.
    pub closed spec fn accepted(&self) -> Set<Seq<u8>> {
        self.accepted@
    }

    /// The curated tier: the words worth showing as missed.
    pub closed spec fn common(&self) -> Set<Seq<u8>> {
        self.common@
    }

    pub closed spec fn node_count(&self) -> nat {
        self.nodes@.len()
    }

    /// A node id that names a node of this trie.
    pub open spec fn valid_node(&self, n: NodeId) -> bool {
        (n as nat) < self.node_count()
    }

    /// The letters spelled from the root to node `n`.
    pub closed spec fn path(&self, n: NodeId) -> Seq<u8> {
        self.paths@[n as int]
    }

    /// Some accepted word starts with `p`.
    pub open spec fn is_prefix(&self, p: Seq<u8>) -> bool {
        prefix_in(self.accepted(), p)
    }

    /// The trie has a node spelling `p`: the root for nothing, otherwise exactly
    /// the prefixes of accepted words.
    pub open spec fn spells_node(&self, p: Seq<u8>) -> bool {
        p.len() == 0 || self.is_prefix(p)
    }

    spec fn kid(&self, i: int, k: int) -> (u8, NodeId) {
        self.nodes@[i].children@[k]
    }

    spec fn kids_ok(&self, i: int) -> bool {
        let kids = self.nodes@[i].children@;
        &&& forall|k: int|
            0 <= k < kids.len() ==> {
                &&& (kids[k].1 as int) < self.nodes@.len()
                &&& self.paths@[kids[k].1 as int] == self.paths@[i].push(kids[k].0)
            }
        &&& forall|k1: int, k2: int| 0 <= k1 < k2 < kids.len() ==> kids[k1].0 < kids[k2].0
    }

    spec fn has_parent(&self, j: int) -> bool {
        exists|i: int| 0 <= i < self.nodes@.len() && is_child_path(self.paths@[i], self.paths@[j])
    }

    spec fn kids_complete(&self) -> bool {
        let n = self.nodes@.len();
        let paths = self.paths@;
        forall|i: int, j: int|
            0 <= i < n && 0 <= j < n && #[trigger] is_child_path(paths[i], paths[j]) ==> exists|
                k: int,
            |
                0 <= k < self.nodes@[i].children@.len() && #[trigger] self.kid(i, k) == (
                    paths[j].last(),
                    j as NodeId,
                )
    }

    /// Everything but how the nodes relate to the words: the tree's shape, the
    /// marks on its nodes and the counts.
    spec fn structure_ok(&self) -> bool {
        let n = self.nodes@.len();
        let paths = self.paths@;
        &&& 1 <= n <= u32::MAX
        &&& paths.len() == n
        &&& paths[0] == Seq::<u8>::empty()
        &&& forall|i: int| 0 <= i < n ==> #[trigger] self.kids_ok(i)
        &&& self.kids_complete()
        &&& forall|j: int| 1 <= j < n ==> #[trigger] self.has_parent(j)
        &&& forall|i: int, j: int| 0 <= i < j < n ==> paths[i] != paths[j]
        &&& forall|i: int|
            0 <= i < n ==> (self.nodes@[i].is_word <==> self.accepted@.contains(#[trigger] paths[i]))
        &&& forall|i: int|
            0 <= i < n ==> (self.nodes@[i].is_common <==> self.common@.contains(#[trigger] paths[i]))
        &&& self.common@.subset_of(self.accepted@)
        &&& self.accepted@.finite()
        &&& self.common@.finite()
        &&& self.word_count == self.accepted@.len()
        &&& self.common_count == self.common@.len()
    }

    spec fn nodes_are_prefixes(&self, s: Set<Seq<u8>>) -> bool {
        forall|i: int| 1 <= i < self.nodes@.len() ==> #[trigger] prefix_in(s, self.paths@[i])
    }

    spec fn has_node_for(&self, p: Seq<u8>) -> bool {
        exists|i: int| 0 <= i < self.nodes@.len() && #[trigger] self.paths@[i] == p
    }

    spec fn prefixes_have_nodes(&self, s: Set<Seq<u8>>) -> bool {
        forall|w: Seq<u8>, k: int|
            #![trigger s.contains(w), w.take(k)]
            s.contains(w) && 0 <= k <= w.len() ==> self.has_node_for(w.take(k))
    }

    /// The trie's invariant: a well-shaped tree whose nodes are exactly the
    /// prefixes of the accepted words.
    pub closed spec fn wf(&self) -> bool {
        &&& self.structure_ok()
        &&& forall|w: Seq<u8>| #[trigger] self.accepted@.contains(w) ==> w.len() <= MAX_WORD_LEN
        &&& self.nodes_are_prefixes(self.accepted@)
        &&& self.prefixes_have_nodes(self.accepted@)
    }

    /// An empty list: the root alone, spelling nothing.
    pub fn new() -> (dict: Self)
        ensures
            dict.wf(),
            dict.accepted() == Set::<Seq<u8>>::empty(),
            dict.common() == Set::<Seq<u8>>::empty(),
            dict.node_count() == 1,
    {
        let mut nodes = Vec::new();
        nodes.push(Node { children: Vec::new(), is_word: false, is_common: false });
        let dict = Dictionary {
            nodes,
            word_count: 0,
            common_count: 0,
            paths: Ghost(Seq::<Seq<u8>>::empty().push(Seq::<u8>::empty())),
            accepted: Ghost(Set::empty()),
            common: Ghost(Set::empty()),
        };
        proof {
            assert(dict.kids_ok(0));
        }
        dict
    }

    /// Root of the trie: the starting point for a board walk.
    pub fn root(&self) -> (node: NodeId)
        requires
            self.wf(),
        ensures
            node == 0,
            self.valid_node(node),
            self.path(node) == Seq::<u8>::empty(),
    {
        0
    }

    /// The child of `node` for `letter`, found by binary search.
    fn child(&self, node: NodeId, letter: u8) -> (found: Option<NodeId>)
        requires
            self.structure_ok(),
            self.valid_node(node),
        ensures
            match found {
                Some(c) => exists|k: int|
                    0 <= k < self.nodes@[node as int].children@.len() && self.kid(node as int, k)
                        == (letter, c),
                None => forall|k: int|
                    0 <= k < self.nodes@[node as int].children@.len() ==> self.kid(node as int, k).0
                        != letter,
            },
    {
        let kids = &self.nodes[node as usize].children;
        proof {
            assert(self.kids_ok(node as int));
        }
        let mut lo: usize = 0;
        let mut hi: usize = kids.len();
        while lo < hi
            invariant
                kids@ == self.nodes@[node as int].children@,
                self.kids_ok(node as int),
                0 <= lo <= hi <= kids@.len(),
                forall|k: int| 0 <= k < lo ==> kids@[k].0 < letter,
                forall|k: int| hi <= k < kids@.len() ==> kids@[k].0 > letter,
            decreases hi - lo,
        {
            let mid = lo + (hi - lo) / 2;
            let (l, c) = kids[mid];
            if l == letter {
                proof {
                    assert(self.kid(node as int, mid as int) == (letter, c));
                }
                return Some(c);
            } else if l < letter {
                lo = mid + 1;
            } else {
                hi = mid;
            }
        }
        None
    }

    proof fn lemma_step(&self, node: NodeId, letter: u8)
        requires
            self.wf(),
            self.valid_node(node),
        ensures
            (exists|k: int|
                0 <= k < self.nodes@[node as int].children@.len() && self.kid(node as int, k).0
                    == letter) <==> self.is_prefix(self.path(node).push(letter)),
            forall|k: int|
                0 <= k < self.nodes@[node as int].children@.len() && self.kid(node as int, k).0
                    == letter ==> {
                    &&& self.valid_node(#[trigger] self.kid(node as int, k).1)
                    &&& self.path(self.kid(node as int, k).1) == self.path(node).push(letter)
                },
    {
        let i = node as int;
        let p = self.paths@[i].push(letter);
        assert(self.kids_ok(i));
        if exists|k: int| 0 <= k < self.nodes@[i].children@.len() && self.kid(i, k).0 == letter {
            let k = choose|k: int| 0 <= k < self.nodes@[i].children@.len() && self.kid(i, k).0 == letter;
            let c = self.kid(i, k).1 as int;
            assert(self.paths@[c] == p);
            assert(c != 0) by {
                assert(self.paths@[0].len() == 0);
            }
            assert(self.is_prefix(self.paths@[c]));
        }
        if self.is_prefix(p) {
            let w = choose|w: Seq<u8>| #[trigger] self.accepted().contains(w) && p.is_prefix_of(w);
            assert(w.take(p.len() as int) == p);
            let j = choose|j: int| 0 <= j < self.nodes@.len() && #[trigger] self.paths@[j] == w.take(p.len() as int);
            assert(is_child_path(self.paths@[i], self.paths@[j])) by {
                assert(self.paths@[j].take(self.paths@[i].len() as int) =~= self.paths@[i]);
            }
            let k = choose|k: int|
                0 <= k < self.nodes@[i].children@.len() && #[trigger] self.kid(i, k) == (
                    self.paths@[j].last(),
                    j as NodeId,
                );
            assert(self.kid(i, k).0 == letter);
        }
    }

    /// Where a run of letters leads from node `n`: the node that spells `n`'s
    /// letters and then these, when the trie holds that spelling; nowhere
    /// otherwise.
    pub open spec fn stepped(&self, n: NodeId, letters: Seq<u8>) -> Option<NodeId> {
        if self.spells_node(self.path(n) + letters) {
            Some(choose|c: NodeId| self.valid_node(c) && self.path(c) == self.path(n) + letters)
        } else {
            None
        }
    }

    /// Every node spells something the trie holds, and no two spell the same.
    proof fn lemma_nodes_spell(&self, n: NodeId, m: NodeId)
        requires
            self.wf(),
            self.valid_node(n),
        ensures
            self.spells_node(self.path(n)),
            self.valid_node(m) && self.path(m) == self.path(n) ==> m == n,
    {
        if n != 0 {
            assert(prefix_in(self.accepted@, self.paths@[n as int]));
        }
        if self.valid_node(m) && m != n {
            if m < n {
                assert(self.paths@[m as int] != self.paths@[n as int]);
            } else {
                assert(self.paths@[n as int] != self.paths@[m as int]);
            }
        }
    }

    /// Every spelling the trie holds has a node.
    proof fn lemma_spelling_has_node(&self, p: Seq<u8>)
        requires
            self.wf(),
            self.spells_node(p),
        ensures
            exists|c: NodeId| self.valid_node(c) && #[trigger] self.path(c) == p,
    {
        if p.len() == 0 {
            assert(self.path(0) == p);
        } else {
            let w = choose|w: Seq<u8>| #[trigger] self.accepted@.contains(w) && p.is_prefix_of(w);
            assert(w.take(p.len() as int) =~= p);
            assert(self.has_node_for(w.take(p.len() as int)));
            let i = choose|i: int| 0 <= i < self.nodes@.len() && #[trigger] self.paths@[i] == w.take(p.len() as int);
            assert(self.path(i as NodeId) == p);
        }
    }

    /// A step's contract, read as the one node it can lead to.
    proof fn lemma_step_is_stepped(&self, n: NodeId, letters: Seq<u8>, next: Option<NodeId>)
        requires
            self.wf(),
            self.valid_node(n),
            next.is_some() == self.spells_node(self.path(n) + letters),
            next matches Some(c) ==> self.valid_node(c) && self.path(c) == self.path(n) + letters,
        ensures
            next == self.stepped(n, letters),
    {
        if let Some(c) = next {
            let d = choose|d: NodeId| self.valid_node(d) && self.path(d) == self.path(n) + letters;
            self.lemma_spelling_has_node(self.path(n) + letters);
            self.lemma_nodes_spell(c, d);
        }
    }

    /// Stepping through the trie composes: a step by no letters stays where it
    /// is, a step by `a` and then by `b` lands where a step by `a + b` does, and
    /// a step from the root leads somewhere exactly when the letters begin some
    /// accepted word (or are none).
    pub proof fn lemma_steps_compose(&self, n: NodeId, a: Seq<u8>, b: Seq<u8>)
        requires
            self.wf(),
            self.valid_node(n),
        ensures
            self.stepped(n, Seq::empty()) == Some(n),
            self.stepped(n, a + b) == match self.stepped(n, a) {
                Some(m) => self.stepped(m, b),
                None => None,
            },
            self.stepped(0, a) is Some <==> (a.len() == 0 || exists|w: Seq<u8>|
                #[trigger] self.accepted().contains(w) && a.is_prefix_of(w)),
    {
        let p = self.path(n);
        assert(p + Seq::<u8>::empty() =~= p);
        self.lemma_nodes_spell(n, n);
        let c0 = choose|c: NodeId| self.valid_node(c) && self.path(c) == p + Seq::<u8>::empty();
        self.lemma_spelling_has_node(p);
        self.lemma_nodes_spell(n, c0);
        assert((p + a) + b =~= p + (a + b));
        if self.spells_node(p + a) {
            self.lemma_spelling_has_node(p + a);
            let m = choose|c: NodeId| self.valid_node(c) && self.path(c) == p + a;
            assert(self.path(m) + b == p + (a + b));
        } else if self.spells_node(p + (a + b)) {
            assert(p + a =~= (p + (a + b)).take((p + a).len() as int));
            if (p + a).len() > 0 {
                let w = choose|w: Seq<u8>| #[trigger] self.accepted().contains(w) && (p + (a + b)).is_prefix_of(w);
                assert((p + a).is_prefix_of(w));
            }
        }
        assert(self.path(0) == Seq::<u8>::empty()) by {
            assert(self.paths@[0] == Seq::<u8>::empty());
        }
        assert(Seq::<u8>::empty() + a =~= a);
    }

    /// Follow one letter. `None` means no accepted word continues this way, which
    /// is the signal for the solver to prune the whole branch.
    pub fn step(&self, node: NodeId, letter: u8) -> (next: Option<NodeId>)
        requires
            self.wf(),
            self.valid_node(node),
        ensures
            next.is_some() == self.is_prefix(self.path(node).push(letter)),
            next matches Some(c) ==> self.valid_node(c) && self.path(c) == self.path(node).push(letter),
    {
        proof {
            self.lemma_step(node, letter);
        }
        let found = self.child(node, letter);
        proof {
            if let Some(c) = found {
                let k = choose|k: int|
                    0 <= k < self.nodes@[node as int].children@.len() && self.kid(node as int, k)
                        == (letter, c);
                assert(self.kids_ok(node as int));
                assert(self.nodes@[node as int].children@[k] == (letter, c));
            }
        }
        found
    }

    /// Follow a run of letters, one after another.
    pub fn step_bytes(&self, node: NodeId, letters: &[u8]) -> (next: Option<NodeId>)
        requires
            self.wf(),
            self.valid_node(node),
        ensures
            next.is_some() == self.spells_node(self.path(node) + letters@),
            next matches Some(c) ==> self.valid_node(c) && self.path(c) == self.path(node) + letters@,
            next == self.stepped(node, letters@),
    {
        let mut at = node;
        let mut i: usize = 0;
        while i < letters.len()
            invariant
                self.wf(),
                self.valid_node(at),
                0 <= i <= letters@.len(),
                self.path(at) == self.path(node) + letters@.take(i as int),
            decreases letters@.len() - i,
        {
            match self.step(at, letters[i]) {
                Some(c) => {
                    proof {
                        assert(letters@.take(i + 1) =~= letters@.take(i as int).push(letters@[i as int]));
                    }
                    at = c;
                },
                None => {
                    proof {
                        let p = self.path(node) + letters@;
                        let q = self.path(at).push(letters@[i as int]);
                        assert(q =~= p.take(q.len() as int));
                        if self.spells_node(p) {
                            assert(p.len() > 0);
                            let w = choose|w: Seq<u8>| #[trigger] self.accepted().contains(w) && p.is_prefix_of(w);
                            assert(q.is_prefix_of(w));
                        }
                    }
                    return None;
                },
            }
            i += 1;
        }
        proof {
            assert(letters@.take(letters@.len() as int) =~= letters@);
            let p = self.path(node) + letters@;
            assert(p == self.path(at));
            if at != 0 {
                assert(self.is_prefix(self.paths@[at as int]));
            }
        }
        Some(at)
    }

    /// Follow a whole tile, which may carry more than one letter (the `Qu` die).
    pub fn step_str(&self, node: NodeId, letters: &str) -> (next: Option<NodeId>)
        requires
            self.wf(),
            self.valid_node(node),
        ensures
            next.is_some() == self.spells_node(self.path(node) + letters.spec_bytes()),
            next matches Some(c) ==> self.valid_node(c) && self.path(c) == self.path(node)
                + letters.spec_bytes(),
            next == self.stepped(node, letters.spec_bytes()),
    {
        self.step_bytes(node, letters.as_bytes())
    }

    pub fn is_word_node(&self, node: NodeId) -> (word: bool)
        requires
            self.wf(),
            self.valid_node(node),
        ensures
            word == self.accepted().contains(self.path(node)),
    {
        self.nodes[node as usize].is_word
    }

    /// Curated tier: safe to show the player as a word they should have found.
    pub fn is_common_node(&self, node: NodeId) -> (common: bool)
        requires
            self.wf(),
            self.valid_node(node),
        ensures
            common == self.common().contains(self.path(node)),
    {
        self.nodes[node as usize].is_common
    }

    /// No accepted word goes on past this node.
    pub fn is_dead_end(&self, node: NodeId) -> (dead: bool)
        requires
            self.wf(),
            self.valid_node(node),
        ensures
            dead == (forall|b: u8| !self.is_prefix(#[trigger] self.path(node).push(b))),
    {
        let dead = self.nodes[node as usize].children.len() == 0;
        proof {
            assert(self.kids_ok(node as int));
            if dead {
                assert forall|b: u8| !self.is_prefix(#[trigger] self.path(node).push(b)) by {
                    self.lemma_step(node, b);
                }
            } else {
                let b = self.kid(node as int, 0).0;
                self.lemma_step(node, b);
                assert(self.is_prefix(self.path(node).push(b)));
            }
        }
        dead
    }



    /// A new leaf for `q` hung under node `i`, at place `at` among its children,
    /// keeps the tree's shape.
    proof fn lemma_grow(
        &self,
        pre: Dictionary,
        i: int,
        at: int,
        b: u8,
        q: Seq<u8>,
        s: Set<Seq<u8>>,
        old_acc: Set<Seq<u8>>,
    )
        requires
            pre.structure_ok(),
            pre.nodes_are_prefixes(s),
            pre.prefixes_have_nodes(old_acc),
            pre.accepted@ == old_acc,
            pre.nodes@.len() + 1 <= u32::MAX,
            0 <= i < pre.nodes@.len(),
            q == pre.paths@[i].push(b),
            forall|j: int| 0 <= j < pre.nodes@.len() ==> pre.paths@[j] != q,
            0 <= at <= pre.nodes@[i].children@.len(),
            forall|k: int| 0 <= k < at ==> pre.nodes@[i].children@[k].0 < b,
            forall|k: int| at <= k < pre.nodes@[i].children@.len() ==> pre.nodes@[i].children@[k].0 > b,
            prefix_in(s, q),
            self.nodes@.len() == pre.nodes@.len() + 1,
            forall|j: int| 0 <= j < pre.nodes@.len() && j != i ==> self.nodes@[j] == pre.nodes@[j],
            self.nodes@[i].children@ == pre.nodes@[i].children@.insert(at, (b, pre.nodes@.len() as NodeId)),
            self.nodes@[i].is_word == pre.nodes@[i].is_word,
            self.nodes@[i].is_common == pre.nodes@[i].is_common,
            self.nodes@[pre.nodes@.len() as int].children@.len() == 0,
            !self.nodes@[pre.nodes@.len() as int].is_word,
            !self.nodes@[pre.nodes@.len() as int].is_common,
            self.paths@ == pre.paths@.push(q),
            self.accepted@ == pre.accepted@,
            self.common@ == pre.common@,
            self.word_count == pre.word_count,
            self.common_count == pre.common_count,
        ensures
            self.structure_ok(),
            self.nodes_are_prefixes(s),
            self.prefixes_have_nodes(old_acc),
    {
        let n = pre.nodes@.len();
        let nn = n as int;
        let paths = self.paths@;
        assert(pre.kids_ok(i));
        // q is no accepted word, nor a prefix of one: otherwise it would have a node.
        assert(!old_acc.contains(q)) by {
            if old_acc.contains(q) {
                assert(q.take(q.len() as int) =~= q);
                let j = choose|j: int| 0 <= j < n && #[trigger] pre.paths@[j] == q.take(q.len() as int);
            }
        }
        assert forall|x: int| 0 <= x < self.nodes@.len() implies #[trigger] self.kids_ok(x) by {
            if x == i {
                let kids = self.nodes@[i].children@;
                assert forall|k: int| 0 <= k < kids.len() implies {
                    &&& (kids[k].1 as int) < self.nodes@.len()
                    &&& self.paths@[kids[k].1 as int] == self.paths@[x].push(kids[k].0)
                } by {
                    if k < at {
                        assert(kids[k] == pre.nodes@[i].children@[k]);
                    } else if k > at {
                        assert(kids[k] == pre.nodes@[i].children@[k - 1]);
                    }
                }
                assert forall|k1: int, k2: int| 0 <= k1 < k2 < kids.len() implies kids[k1].0 < kids[k2].0 by {
                    let old_kids = pre.nodes@[i].children@;
                    if k2 < at {
                        assert(kids[k1] == old_kids[k1] && kids[k2] == old_kids[k2]);
                    } else if k1 > at {
                        assert(kids[k1] == old_kids[k1 - 1] && kids[k2] == old_kids[k2 - 1]);
                    } else if k1 == at {
                        assert(kids[k2] == old_kids[k2 - 1]);
                    } else if k2 == at {
                        assert(kids[k1] == old_kids[k1]);
                    } else {
                        assert(kids[k1] == old_kids[k1] && kids[k2] == old_kids[k2 - 1]);
                    }
                }
            } else if x < nn {
                assert(pre.kids_ok(x));
                assert(self.nodes@[x] == pre.nodes@[x]);
            } else {
            }
        }
        assert(self.kids_complete()) by {
            assert forall|x: int, j: int|
                0 <= x < self.nodes@.len() && 0 <= j < self.nodes@.len() && #[trigger] is_child_path(
                    paths[x],
                    paths[j],
                ) implies exists|k: int|
                0 <= k < self.nodes@[x].children@.len() && #[trigger] self.kid(x, k) == (
                    paths[j].last(),
                    j as NodeId,
                ) by {
                if j == nn {
                    // The new leaf: its only parent is node i.
                    assert(paths[x] == q.take(paths[x].len() as int));
                    assert(q.take(paths[i].len() as int) =~= paths[i]);
                    if x != i {
                        assert(pre.paths@[x] == pre.paths@[i]);
                    }
                    assert(self.kid(i, at) == (b, nn as NodeId));
                    assert(q.last() == b);
                } else if x == nn {
                    // The new leaf has no children, and no old node extends q.
                    assert(j != 0) by {
                        assert(paths[j].len() > 0);
                    }
                    assert(pre.has_parent(j));
                    let par = choose|par: int| 0 <= par < n && is_child_path(pre.paths@[par], pre.paths@[j]);
                    assert(j != 0) by {
                        assert(paths[j].len() > 0);
                    }
                    assert(pre.paths@[par] =~= pre.paths@[j].take(pre.paths@[j].len() - 1));
                    assert(q =~= pre.paths@[j].take(pre.paths@[j].len() - 1));
                    assert(false);
                } else {
                    assert(pre.paths@[x] == paths[x] && pre.paths@[j] == paths[j]);
                    let k = choose|k: int|
                        0 <= k < pre.nodes@[x].children@.len() && #[trigger] pre.kid(x, k) == (
                            paths[j].last(),
                            j as NodeId,
                        );
                    if x == i {
                        if k < at {
                            assert(self.kid(x, k) == pre.kid(x, k));
                        } else {
                            assert(self.kid(x, k + 1) == pre.kid(x, k));
                        }
                    } else {
                        assert(self.kid(x, k) == pre.kid(x, k));
                    }
                }
            }
        }
        assert forall|j: int| 1 <= j < self.nodes@.len() implies #[trigger] self.has_parent(j) by {
            if j == nn {
                assert(is_child_path(paths[i], paths[j])) by {
                    assert(q.take(paths[i].len() as int) =~= paths[i]);
                }
            } else {
                assert(pre.has_parent(j));
                let x = choose|x: int| 0 <= x < n && is_child_path(pre.paths@[x], pre.paths@[j]);
                assert(is_child_path(paths[x], paths[j]));
            }
        }
        assert forall|x: int, j: int| 0 <= x < j < self.nodes@.len() implies paths[x] != paths[j] by {
            if j == nn {
                assert(paths[x] == pre.paths@[x]);
            }
        }
        assert forall|x: int| 0 <= x < self.nodes@.len() implies (self.nodes@[x].is_word
            <==> self.accepted@.contains(#[trigger] paths[x])) by {
            if x < nn && x != i {
                assert(self.nodes@[x] == pre.nodes@[x]);
            }
        }
        assert forall|x: int| 0 <= x < self.nodes@.len() implies (self.nodes@[x].is_common
            <==> self.common@.contains(#[trigger] paths[x])) by {
            if x < nn && x != i {
                assert(self.nodes@[x] == pre.nodes@[x]);
            }
        }
        assert forall|x: int| 1 <= x < self.nodes@.len() implies #[trigger] prefix_in(s, paths[x]) by {
            if x < nn {
                assert(prefix_in(s, pre.paths@[x]));
            }
        }
        assert forall|w: Seq<u8>, k: int|
            #![trigger old_acc.contains(w), w.take(k)]
            old_acc.contains(w) && 0 <= k <= w.len() implies self.has_node_for(w.take(k)) by {
            assert(pre.has_node_for(w.take(k)));
            let x = choose|x: int| 0 <= x < n && #[trigger] pre.paths@[x] == w.take(k);
            assert(self.paths@[x] == pre.paths@[x]);
        }
        assert(self.prefixes_have_nodes(old_acc));
    }

    /// Marking the node that spells `target` as a word (and, if asked, as common)
    /// leaves a well-formed trie that accepts `target`.
    proof fn lemma_marked(&self, pre: Dictionary, node: int, target: Seq<u8>, old_acc: Set<Seq<u8>>, common: bool)
        requires
            pre.structure_ok(),
            pre.accepted@ == old_acc,
            pre.nodes_are_prefixes(old_acc.insert(target)),
            pre.prefixes_have_nodes(old_acc),
            forall|k: int|
                #![trigger target.take(k)]
                0 <= k <= target.len() ==> exists|j: int|
                    0 <= j < pre.nodes@.len() && #[trigger] pre.paths@[j] == target.take(k),
            0 <= node < pre.nodes@.len(),
            pre.paths@[node] == target,
            self.paths@ == pre.paths@,
            self.nodes@.len() == pre.nodes@.len(),
            forall|j: int| 0 <= j < pre.nodes@.len() && j != node ==> self.nodes@[j] == pre.nodes@[j],
            self.nodes@[node].children@ == pre.nodes@[node].children@,
            self.nodes@[node].is_word,
            self.nodes@[node].is_common == (pre.nodes@[node].is_common || common),
            self.accepted@ == old_acc.insert(target),
            self.common@ == (if common { pre.common@.insert(target) } else { pre.common@ }),
            self.word_count == self.accepted@.len(),
            self.common_count == self.common@.len(),
            forall|w: Seq<u8>| #[trigger] old_acc.contains(w) ==> w.len() <= MAX_WORD_LEN,
            target.len() <= MAX_WORD_LEN,
        ensures
            self.wf(),
    {
        let n = pre.nodes@.len();
        let paths = self.paths@;
        assert forall|x: int| 0 <= x < n implies #[trigger] self.kids_ok(x) by {
            assert(pre.kids_ok(x));
            if x != node {
                assert(self.nodes@[x] == pre.nodes@[x]);
            }
        }
        assert(self.kids_complete()) by {
            assert forall|x: int, j: int|
                0 <= x < n && 0 <= j < n && #[trigger] is_child_path(paths[x], paths[j]) implies exists|k: int|
                0 <= k < self.nodes@[x].children@.len() && #[trigger] self.kid(x, k) == (
                    paths[j].last(),
                    j as NodeId,
                ) by {
                let k = choose|k: int|
                    0 <= k < pre.nodes@[x].children@.len() && #[trigger] pre.kid(x, k) == (
                        paths[j].last(),
                        j as NodeId,
                    );
                assert(self.kid(x, k) == pre.kid(x, k));
            }
        }
        assert forall|x: int| 0 <= x < n implies (self.nodes@[x].is_word
            <==> self.accepted@.contains(#[trigger] paths[x])) by {
            if x != node {
                assert(self.nodes@[x] == pre.nodes@[x]);
                assert(paths[x] != target) by {
                    if x < node {
                        assert(pre.paths@[x] != pre.paths@[node]);
                    } else {
                        assert(pre.paths@[node] != pre.paths@[x]);
                    }
                }
            }
        }
        assert forall|x: int| 0 <= x < n implies (self.nodes@[x].is_common
            <==> self.common@.contains(#[trigger] paths[x])) by {
            if x != node {
                assert(self.nodes@[x] == pre.nodes@[x]);
                assert(paths[x] != target) by {
                    if x < node {
                        assert(pre.paths@[x] != pre.paths@[node]);
                    } else {
                        assert(pre.paths@[node] != pre.paths@[x]);
                    }
                }
            }
        }
        assert forall|w: Seq<u8>, k: int|
            #![trigger self.accepted@.contains(w), w.take(k)]
            self.accepted@.contains(w) && 0 <= k <= w.len() implies self.has_node_for(w.take(k)) by {
            if w == target {
                let x = choose|x: int| 0 <= x < n && #[trigger] pre.paths@[x] == target.take(k);
                assert(paths[x] == w.take(k));
            } else {
                assert(old_acc.contains(w));
                assert(pre.has_node_for(w.take(k)));
                let x = choose|x: int| 0 <= x < n && #[trigger] pre.paths@[x] == w.take(k);
                assert(paths[x] == w.take(k));
            }
        }
        assert forall|x: int| 1 <= x < n implies #[trigger] prefix_in(self.accepted@, paths[x]) by {
            assert(prefix_in(old_acc.insert(target), pre.paths@[x]));
        }
        assert forall|j: int| 1 <= j < n implies #[trigger] self.has_parent(j) by {
            assert(pre.has_parent(j));
            let x = choose|x: int| 0 <= x < n && is_child_path(pre.paths@[x], pre.paths@[j]);
            assert(is_child_path(paths[x], paths[j]));
        }

        assert(self.structure_ok());
    }

    /// Add `word` to the list, and to the common tier when `common` is set.
    fn insert(&mut self, word: &[u8], common: bool)
        requires
            old(self).wf(),
            word@.len() <= MAX_WORD_LEN,
            old(self).node_count() + word@.len() <= u32::MAX,
        ensures
            final(self).wf(),
            final(self).accepted() == old(self).accepted().insert(word@),
            final(self).common() == (if common {
                old(self).common().insert(word@)
            } else {
                old(self).common()
            }),
            final(self).node_count() <= old(self).node_count() + word@.len(),
    {
        let ghost target = word@;
        let ghost old_acc = self.accepted@;
        let ghost old_n = self.nodes@.len();
        let mut node: NodeId = 0;
        let mut i: usize = 0;
        proof {
            assert(target.take(0) =~= Seq::<u8>::empty());
            assert forall|x: int| 1 <= x < self.nodes@.len() implies #[trigger] prefix_in(
                old_acc.insert(target),
                self.paths@[x],
            ) by {
                assert(prefix_in(old_acc, self.paths@[x]));
                let w = choose|w: Seq<u8>| #[trigger] old_acc.contains(w) && self.paths@[x].is_prefix_of(w);
                assert(old_acc.insert(target).contains(w));
            }
        }
        while i < word.len()
            invariant
                self.structure_ok(),
                self.accepted@ == old_acc,
                self.common@ == old(self).common@,
                self.nodes_are_prefixes(old_acc.insert(target)),
                self.prefixes_have_nodes(old_acc),
                target == word@,
                0 <= i <= word@.len(),
                (node as int) < self.nodes@.len(),
                self.paths@[node as int] == target.take(i as int),
                forall|k: int|
                    #![trigger target.take(k)]
                    0 <= k <= i ==> exists|j: int|
                        0 <= j < self.nodes@.len() && #[trigger] self.paths@[j] == target.take(k),
                self.nodes@.len() <= old_n + i,
                old_n + word@.len() <= u32::MAX,
            decreases word@.len() - i,
        {
            let b = word[i];
            let ghost q = target.take(i + 1);
            proof {
                assert(q =~= target.take(i as int).push(b));
            }
            match self.child(node, b) {
                Some(c) => {
                    proof {
                        let k = choose|k: int|
                            0 <= k < self.nodes@[node as int].children@.len() && self.kid(node as int, k) == (b, c);
                        assert(self.kids_ok(node as int));
                        assert(self.nodes@[node as int].children@[k] == (b, c));
                        assert(self.paths@[c as int] == q);
                        assert forall|k2: int| #![trigger target.take(k2)] 0 <= k2 <= i + 1 implies exists|j: int|
                            0 <= j < self.nodes@.len() && #[trigger] self.paths@[j] == target.take(k2) by {
                            if k2 == i + 1 {
                                assert(self.paths@[c as int] == target.take(k2));
                            }
                        }
                    }
                    node = c;
                },
                None => {
                    let next = self.nodes.len() as NodeId;
                    let kids = &self.nodes[node as usize].children;
                    proof {
                        assert forall|k: int| 0 <= k < kids@.len() implies kids@[k].0 != b by {
                            assert(kids@[k] == self.kid(node as int, k));
                        }
                    }
                    let mut at: usize = 0;
                    while at < kids.len() && kids[at].0 < b
                        invariant
                            kids@ == self.nodes@[node as int].children@,
                            0 <= at <= kids@.len(),
                            forall|k: int| 0 <= k < at ==> kids@[k].0 < b,
                            forall|k: int| 0 <= k < kids@.len() ==> kids@[k].0 != b,
                        decreases kids@.len() - at,
                    {
                        at += 1;
                    }
                    let ghost pre = *self;
                    proof {
                        assert(pre.kids_ok(node as int));
                        assert forall|k: int| at <= k < kids@.len() implies kids@[k].0 > b by {
                            assert(kids@[k].0 != b);
                            if k > at {
                                assert(kids@[at as int].0 < kids@[k].0);
                            }
                        }
                        // Nothing in the trie spells q yet.
                        assert forall|j: int| 0 <= j < pre.nodes@.len() implies pre.paths@[j] != q by {
                            if pre.paths@[j] == q {
                                assert(is_child_path(pre.paths@[node as int], pre.paths@[j])) by {
                                    assert(q.take(target.take(i as int).len() as int) =~= target.take(i as int));
                                }
                                let k = choose|k: int|
                                    0 <= k < pre.nodes@[node as int].children@.len() && #[trigger] pre.kid(node as int, k) == (
                                        pre.paths@[j].last(),
                                        j as NodeId,
                                    );
                                assert(pre.kid(node as int, k).0 == b);
                            }
                        }
                    }
                    self.nodes.push(Node { children: Vec::new(), is_word: false, is_common: false });
                    self.nodes[node as usize].children.insert(at, (b, next));
                    self.paths = Ghost(self.paths@.push(q));
                    proof {
                        assert(prefix_in(old_acc.insert(target), q)) by {
                            assert(q.is_prefix_of(target));
                            assert(old_acc.insert(target).contains(target));
                        }
                        self.lemma_grow(pre, node as int, at as int, b, q, old_acc.insert(target), old_acc);
                        assert(self.paths@[next as int] == q);
                        assert forall|k2: int| #![trigger target.take(k2)] 0 <= k2 <= i + 1 implies exists|j: int|
                            0 <= j < self.nodes@.len() && #[trigger] self.paths@[j] == target.take(k2) by {
                            if k2 == i + 1 {
                                assert(self.paths@[next as int] == target.take(k2));
                            } else {
                                let j = choose|j: int|
                                    0 <= j < pre.nodes@.len() && #[trigger] pre.paths@[j] == target.take(k2);
                                assert(self.paths@[j] == target.take(k2));
                            }
                        }
                        assert(prefix_in(old_acc.insert(target), q)) by {
                            assert(q.is_prefix_of(target));
                            assert(old_acc.insert(target).contains(target));
                        }
                    }
                    node = next;
                },
            }
            i += 1;
        }
        proof {
            assert(target.take(target.len() as int) =~= target);
        }
        let was_word = self.nodes[node as usize].is_word;
        let was_common = self.nodes[node as usize].is_common;
        let ghost pre = *self;
        let ghost new_acc = old_acc.insert(target);
        proof {
            assert(new_acc.subset_of(self.paths@.to_set())) by {
                assert forall|w: Seq<u8>| new_acc.contains(w) implies self.paths@.to_set().contains(w) by {
                    if w == target {
                        assert(self.paths@[node as int] == w);
                    } else {
                        assert(old_acc.contains(w));
                        assert(w.take(w.len() as int) =~= w);
                        let j = choose|j: int| 0 <= j < self.nodes@.len() && #[trigger] self.paths@[j] == w.take(w.len() as int);
                        assert(self.paths@[j] == w);
                    }
                }
            }
            vstd::set_lib::lemma_len_subset(new_acc, self.paths@.to_set());
            self.paths@.lemma_cardinality_of_set();
            if !was_word {
                assert(!old_acc.contains(target));
                assert(new_acc.len() == old_acc.len() + 1);
            } else {
                assert(new_acc =~= old_acc);
            }
        }
        if !was_word {
            self.nodes[node as usize].is_word = true;
            self.word_count = self.word_count + 1;
        }
        self.accepted = Ghost(new_acc);
        proof {
            if common && !was_common {
                assert(!pre.common@.contains(target));
                vstd::set_lib::lemma_len_subset(pre.common@.insert(target), new_acc);
            }
        }
        if common && !was_common {
            self.nodes[node as usize].is_common = true;
            self.common_count = self.common_count + 1;
        }
        if common {
            self.common = Ghost(pre.common@.insert(target));
        }
        proof {
            if common && was_common {
                assert(pre.common@.insert(target) =~= pre.common@);
            }
            self.lemma_marked(pre, node as int, target, old_acc, common);
        }
    }


    /// Add every word of a list, one per line: trimmed, lower-cased, 3 to 16
    /// letters a-z. Anything else on a line leaves that line out.
    pub fn load(&mut self, text: &str, common: bool)
        requires
            old(self).wf(),
            old(self).node_count() + text.spec_bytes().len() <= u32::MAX,
        ensures
            final(self).wf(),
            final(self).accepted() == old(self).accepted().union(list_words(text.spec_bytes())),
            final(self).common() == (if common {
                old(self).common().union(list_words(text.spec_bytes()))
            } else {
                old(self).common()
            }),
            final(self).node_count() <= old(self).node_count() + text.spec_bytes().len(),
    {
        let t = text.as_bytes();
        let len = t.len();
        let ghost tb = t@;
        let ghost old_acc = self.accepted@;
        let ghost old_common = self.common@;
        let ghost old_n = self.nodes@.len();
        let mut start: usize = 0;
        proof {
            assert(list_words_before(tb, 0) =~= Set::<Seq<u8>>::empty());
            assert(old_acc.union(Set::<Seq<u8>>::empty()) =~= old_acc);
            assert(old_common.union(Set::<Seq<u8>>::empty()) =~= old_common);
        }
        while start < len
            invariant
                self.wf(),
                t@ == tb,
                len == tb.len(),
                0 <= start <= len + 1,
                start == 0 || start == len + 1 || (start <= len && tb[start - 1] == 10),
                self.accepted@ == old_acc.union(list_words_before(tb, start as int)),
                self.common@ == (if common {
                    old_common.union(list_words_before(tb, start as int))
                } else {
                    old_common
                }),
                self.nodes@.len() <= old_n + (if start <= len { start as int } else { len as int }),
                old_n + len <= u32::MAX,
                1 <= old_n,
            decreases len + 1 - start,
        {
            let mut end = start;
            while end < len && t[end] != 10
                invariant
                    t@ == tb,
                    len == tb.len(),
                    start <= end <= len,
                    forall|k: int| start <= k < end ==> tb[k] != 10,
                decreases len - end,
            {
                end += 1;
            }
            let found = line_word(t, start, end);
            let ghost line = tb.subrange(start as int, end as int);
            proof {
                assert(is_line(tb, start as int, end as int));
                lemma_next_line(tb, start as int, end as int);
                lemma_trimmed_len(line);
            }
            match found {
                Some(w) => {
                    proof {
                        assert(list_words_before(tb, end + 1) =~= list_words_before(tb, start as int).insert(w@));
                        assert(w@.len() == trimmed(line).len());
                    }
                    self.insert(w.as_slice(), common);
                    proof {
                        assert(self.accepted@ =~= old_acc.union(list_words_before(tb, end + 1)));
                        if common {
                            assert(self.common@ =~= old_common.union(list_words_before(tb, end + 1)));
                        }
                    }
                },
                None => {
                    proof {
                        assert(list_words_before(tb, end + 1) =~= list_words_before(tb, start as int));
                    }
                },
            }
            start = end + 1;
        }
        proof {
            if start == len {
                lemma_last_line_empty(tb);
            }
            assert(list_words_before(tb, start as int) =~= list_words(tb));
        }
    }

    /// The node that spells `word` in lower case, if the trie has one.
    fn node_for(&self, word: &str) -> (found: Option<NodeId>)
        requires
            self.wf(),
        ensures
            found.is_some() == self.spells_node(lowered(word.spec_bytes())),
            found matches Some(n) ==> self.valid_node(n) && self.path(n) == lowered(word.spec_bytes()),
    {
        let b = word.as_bytes();
        let mut low: Vec<u8> = Vec::new();
        let mut i: usize = 0;
        while i < b.len()
            invariant
                0 <= i <= b@.len(),
                low@ == lowered(b@.take(i as int)),
            decreases b@.len() - i,
        {
            let c = b[i];
            low.push(if 65 <= c && c <= 90 { c + 32 } else { c });
            proof {
                assert(lowered(b@.take(i + 1)) =~= lowered(b@.take(i as int)).push(lower_byte(c)));
            }
            i += 1;
        }
        proof {
            assert(b@.take(b@.len() as int) =~= b@);
        }
        let root = self.root();
        proof {
            assert(self.path(root) + low@ =~= low@);
        }
        self.step_bytes(root, low.as_slice())
    }

    /// Whether the list accepts `word`, in any case.
    pub fn contains(&self, word: &str) -> (found: bool)
        requires
            self.wf(),
        ensures
            found == self.accepted().contains(lowered(word.spec_bytes())),
    {
        match self.node_for(word) {
            Some(n) => self.is_word_node(n),
            None => {
                proof {
                    let low = lowered(word.spec_bytes());
                    if self.accepted().contains(low) {
                        assert(low.is_prefix_of(low));
                    }
                }
                false
            },
        }
    }

    /// Whether `word`, in any case, is in the common tier.
    pub fn is_common(&self, word: &str) -> (found: bool)
        requires
            self.wf(),
        ensures
            found == self.common().contains(lowered(word.spec_bytes())),
    {
        match self.node_for(word) {
            Some(n) => self.is_common_node(n),
            None => {
                proof {
                    let low = lowered(word.spec_bytes());
                    if self.common().contains(low) {
                        assert(self.accepted().contains(low));
                        assert(low.is_prefix_of(low));
                    }
                }
                false
            },
        }
    }

    /// The common tier lies inside what the list accepts: a common node is a
    /// word node, and there are no more common words than accepted ones. No
    /// word the list accepts is longer than the longest a list may hold.
    pub proof fn lemma_common_accepted(&self)
        requires
            self.wf(),
        ensures
            self.common().subset_of(self.accepted()),
            self.common().len() <= self.accepted().len(),
            forall|n: NodeId|
                self.valid_node(n) && #[trigger] self.common().contains(self.path(n)) ==> self.accepted().contains(
                    self.path(n),
                ),
            forall|w: Seq<u8>| #[trigger] self.accepted().contains(w) ==> w.len() <= MAX_WORD_LEN,
    {
        vstd::set_lib::lemma_len_subset(self.common@, self.accepted@);
    }

    /// Lookup ignores case: a word and its lower-cased form are looked up
    /// alike, in both tiers, since lower-casing twice is lower-casing once.
    pub proof fn lemma_lookup_ignores_case(&self, w: Seq<u8>)
        ensures
            lowered(lowered(w)) == lowered(w),
            self.accepted().contains(lowered(w)) == self.accepted().contains(lowered(lowered(w))),
            self.common().contains(lowered(w)) == self.common().contains(lowered(lowered(w))),
    {
        assert(lowered(lowered(w)) =~= lowered(w));
    }

    /// A dictionary built from its three lists, in the order the game loads
    /// them: every accepted word, then the common tier, then the theme words,
    /// which count as common too.
    pub fn from_lists(accepted: &str, common: &str, themes: &str) -> (dict: Self)
        requires
            1 + accepted.spec_bytes().len() + common.spec_bytes().len() + themes.spec_bytes().len()
                <= u32::MAX,
        ensures
            dict.wf(),
            dict.accepted() == list_words(accepted.spec_bytes()).union(list_words(common.spec_bytes())).union(
                list_words(themes.spec_bytes()),
            ),
            dict.common() == list_words(common.spec_bytes()).union(list_words(themes.spec_bytes())),
    {
        let mut dict = Dictionary::new();
        dict.load(accepted, false);
        dict.load(common, true);
        dict.load(themes, true);
        proof {
            assert(Set::<Seq<u8>>::empty().union(list_words(accepted.spec_bytes())) =~= list_words(accepted.spec_bytes()));
            assert(Set::<Seq<u8>>::empty().union(list_words(common.spec_bytes())) =~= list_words(common.spec_bytes()));
        }
        dict
    }

    /// A dictionary built from lists accepts exactly the words the lists hold,
    /// and each of them is 3 to 16 letters a-z, already lower case: so a word
    /// shorter or longer, or holding anything but letters, is never found.
    pub proof fn lemma_listed_words_are_letters(&self, accepted: Seq<u8>, common: Seq<u8>, themes: Seq<u8>, w: Seq<u8>)
        requires
            self.accepted() == list_words(accepted).union(list_words(common)).union(list_words(themes)),
            self.accepted().contains(w),
        ensures
            MIN_WORD_LEN <= w.len() <= MAX_WORD_LEN,
            forall|i: int| 0 <= i < w.len() ==> is_lower_letter(#[trigger] w[i]),
            lowered(w) == w,
    {
        let t = if list_words(accepted).contains(w) {
            accepted
        } else if list_words(common).contains(w) {
            common
        } else {
            themes
        };
        assert(list_words(t).contains(w));
        let (s0, e0) = choose|s0: int, e0: int|
            #![trigger is_line(t, s0, e0), list_word(t.subrange(s0, e0))]
            is_line(t, s0, e0) && s0 < t.len() + 1 && list_word(t.subrange(s0, e0)) == Some(w);
        assert(list_word(t.subrange(s0, e0)) == Some(w));
        assert forall|i: int| 0 <= i < w.len() implies lower_byte(w[i]) == w[i] by {
            assert(is_lower_letter(w[i]));
        }
        assert(lowered(w) =~= w);
    }

    pub fn word_count(&self) -> (n: usize)
        requires
            self.wf(),
        ensures
            n == self.accepted().len(),
    {
        self.word_count
    }

    pub fn common_count(&self) -> (n: usize)
        requires
            self.wf(),
        ensures
            n == self.common().len(),
    {
        self.common_count
    }
}

} // verus!
