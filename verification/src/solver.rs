//! Finding every word on a board: a walk over the tiles that follows the
//! dictionary's trie, and the order the word lists are kept in.

use vstd::prelude::*;
use vstd::string::StringSliceAdditionalSpecFns;
use vstd::string::StringExecFns;
use crate::dictionary::{Dictionary, NodeId};
use crate::game::{
    adjacent, around, around_ok, in_board, lemma_spelled_concat, lemma_spelled_len,
    lemma_spelled_push, spelled, string_bytes, tile, tiles_ok, traceable, traces, valid_path, Grid,
    Position,
};

verus! {

/// Byte-wise lexicographic order, as `str` compares.
pub open spec fn lex_less(a: Seq<u8>, b: Seq<u8>) -> bool
    decreases a.len(),
{
    if a.len() == 0 {
        b.len() > 0
    } else if b.len() == 0 {
        false
    } else if a[0] != b[0] {
        a[0] < b[0]
    } else {
        lex_less(a.drop_first(), b.drop_first())
    }
}

/// The order every word list of a board is kept in: longest first, and
/// alphabetical among words of one length.
pub open spec fn ranks_before(a: Seq<u8>, b: Seq<u8>) -> bool {
    a.len() > b.len() || (a.len() == b.len() && lex_less(a, b))
}

/// Each word comes strictly before the next, so none occurs twice.
pub open spec fn ranked(words: Seq<Seq<u8>>) -> bool {
    forall|i: int, j: int| 0 <= i < j < words.len() ==> ranks_before(words[i], words[j])
}

/// The bytes of each string of a list.
pub open spec fn bytes_of(list: Seq<String>) -> Seq<Seq<u8>> {
    list.map_values(|s: String| string_bytes(s))
}

pub proof fn lemma_lex_irreflexive(a: Seq<u8>)
    ensures
        !lex_less(a, a),
    decreases a.len(),
{
    if a.len() > 0 {
        lemma_lex_irreflexive(a.drop_first());
    }
}

pub proof fn lemma_lex_asymmetric(a: Seq<u8>, b: Seq<u8>)
    ensures
        !(lex_less(a, b) && lex_less(b, a)),
    decreases a.len(),
{
    if a.len() > 0 && b.len() > 0 && a[0] == b[0] {
        lemma_lex_asymmetric(a.drop_first(), b.drop_first());
    }
}

pub proof fn lemma_lex_transitive(a: Seq<u8>, b: Seq<u8>, c: Seq<u8>)
    requires
        lex_less(a, b),
        lex_less(b, c),
    ensures
        lex_less(a, c),
    decreases a.len(),
{
    if a.len() > 0 && b.len() > 0 && c.len() > 0 && a[0] == b[0] && b[0] == c[0] {
        lemma_lex_transitive(a.drop_first(), b.drop_first(), c.drop_first());
    }
}

pub proof fn lemma_lex_total(a: Seq<u8>, b: Seq<u8>)
    ensures
        a == b || lex_less(a, b) || lex_less(b, a),
    decreases a.len(),
{
    if a.len() > 0 && b.len() > 0 && a[0] == b[0] {
        lemma_lex_total(a.drop_first(), b.drop_first());
        if a.drop_first() == b.drop_first() {
            assert(a =~= seq![a[0]] + a.drop_first());
            assert(b =~= seq![b[0]] + b.drop_first());
        }
    } else if a.len() == 0 && b.len() == 0 {
        assert(a =~= b);
    }
}

/// The board order is a strict total order.
pub proof fn lemma_rank_order(a: Seq<u8>, b: Seq<u8>, c: Seq<u8>)
    ensures
        !ranks_before(a, a),
        !(ranks_before(a, b) && ranks_before(b, a)),
        ranks_before(a, b) && ranks_before(b, c) ==> ranks_before(a, c),
        a == b || ranks_before(a, b) || ranks_before(b, a),
{
    lemma_lex_irreflexive(a);
    lemma_lex_asymmetric(a, b);
    lemma_lex_total(a, b);
    if ranks_before(a, b) && ranks_before(b, c) && a.len() == c.len() {
        lemma_lex_transitive(a, b, c);
    }
}

pub proof fn lemma_lex_skip(a: Seq<u8>, b: Seq<u8>, i: int)
    requires
        0 <= i <= a.len(),
        i <= b.len(),
        a.take(i) == b.take(i),
    ensures
        lex_less(a, b) == lex_less(a.skip(i), b.skip(i)),
    decreases i,
{
    if i > 0 {
        assert(a[0] == a.take(i)[0]);
        assert(b[0] == b.take(i)[0]);
        assert(a.drop_first().take(i - 1) =~= a.take(i).drop_first());
        assert(b.drop_first().take(i - 1) =~= b.take(i).drop_first());
        lemma_lex_skip(a.drop_first(), b.drop_first(), i - 1);
        assert(a.drop_first().skip(i - 1) =~= a.skip(i));
        assert(b.drop_first().skip(i - 1) =~= b.skip(i));
    } else {
        assert(a.skip(0) =~= a);
        assert(b.skip(0) =~= b);
    }
}

/// Whether `a` comes before `b` in the board order.
pub fn comes_before(a: &[u8], b: &[u8]) -> (before: bool)
    ensures
        before == ranks_before(a@, b@),
{
    if a.len() != b.len() {
        return a.len() > b.len();
    }
    let n = a.len();
    let mut i: usize = 0;
    while i < n
        invariant
            n == a@.len(),
            n == b@.len(),
            0 <= i <= n,
            a@.take(i as int) == b@.take(i as int),
        decreases n - i,
    {
        if a[i] != b[i] {
            proof {
                lemma_lex_skip(a@, b@, i as int);
                assert(a@.skip(i as int)[0] == a@[i as int]);
                assert(b@.skip(i as int)[0] == b@[i as int]);
            }
            return a[i] < b[i];
        }
        proof {
            assert(a@.take(i + 1) =~= a@.take(i as int).push(a@[i as int]));
            assert(b@.take(i + 1) =~= b@.take(i as int).push(b@[i as int]));
        }
        i += 1;
    }
    proof {
        assert(a@.take(n as int) =~= a@);
        assert(b@.take(n as int) =~= b@);
        lemma_lex_irreflexive(a@);
    }
    false
}

/// UTF-8 encoding runs piece by piece.
pub proof fn lemma_encode_concat(a: Seq<char>, b: Seq<char>)
    ensures
        vstd::utf8::encode_utf8(a + b) == vstd::utf8::encode_utf8(a) + vstd::utf8::encode_utf8(b),
    decreases a.len(),
{
    if a.len() == 0 {
        assert(a + b =~= b);
        assert(vstd::utf8::encode_utf8(a) =~= Seq::<u8>::empty());
        assert(Seq::<u8>::empty() + vstd::utf8::encode_utf8(b) =~= vstd::utf8::encode_utf8(b));
    } else {
        assert((a + b).drop_first() =~= a.drop_first() + b);
        assert((a + b)[0] == a[0]);
        lemma_encode_concat(a.drop_first(), b);
        assert(vstd::utf8::encode_scalar(a[0] as u32) + (vstd::utf8::encode_utf8(a.drop_first())
            + vstd::utf8::encode_utf8(b)) =~= (vstd::utf8::encode_scalar(a[0] as u32)
            + vstd::utf8::encode_utf8(a.drop_first())) + vstd::utf8::encode_utf8(b));
    }
}

/// `word` with `letters` on the end.
fn extended(word: &String, letters: &str) -> (out: String)
    ensures
        string_bytes(out) == string_bytes(*word) + letters.spec_bytes(),
{
    let out = word.clone().concat(letters);
    proof {
        lemma_encode_concat(word@, letters@);
    }
    out
}


/// The words of a list of words with their tile masks.
pub open spec fn keys(list: Seq<(String, u16)>) -> Seq<Seq<u8>> {
    list.map_values(|e: (String, u16)| string_bytes(e.0))
}

/// In a ranked list, what comes at or after `k` follows whatever `word` comes
/// before; so a word placed at `k` keeps the list ranked.
proof fn lemma_ranked_insert(words: Seq<Seq<u8>>, word: Seq<u8>, k: int)
    requires
        ranked(words),
        0 <= k <= words.len(),
        forall|j: int| 0 <= j < k ==> ranks_before(#[trigger] words[j], word),
        k < words.len() ==> ranks_before(word, words[k]),
    ensures
        ranked(words.insert(k, word)),
        !words.contains(word),
{
    let out = words.insert(k, word);
    assert forall|a: int, b: int| 0 <= a < b < out.len() implies ranks_before(out[a], out[b]) by {
        if b == k {
            assert(out[a] == words[a]);
        } else if a == k {
            assert(out[b] == words[b - 1]);
            if b - 1 > k {
                lemma_rank_order(word, words[k], words[b - 1]);
            }
        } else if a < k && b > k {
            assert(out[a] == words[a] && out[b] == words[b - 1]);
        } else if a > k {
            assert(out[a] == words[a - 1] && out[b] == words[b - 1]);
        }
    }
    assert forall|j: int| 0 <= j < words.len() implies words[j] != word by {
        lemma_rank_order(word, word, word);
        if j > k {
            lemma_rank_order(word, words[k], words[j]);
        }
    }
}

/// Where `word` belongs in a ranked list of keyed words: after every word that
/// comes before it.
fn keyed_position(list: &Vec<(String, u16)>, word: &[u8]) -> (k: usize)
    ensures
        k <= list@.len(),
        forall|j: int| 0 <= j < k ==> ranks_before(#[trigger] keys(list@)[j], word@),
        k < list@.len() ==> !ranks_before(keys(list@)[k as int], word@),
{
    let mut k: usize = 0;
    while k < list.len()
        invariant
            0 <= k <= list@.len(),
            forall|j: int| 0 <= j < k ==> ranks_before(#[trigger] keys(list@)[j], word@),
        decreases list@.len() - k,
    {
        let here = list[k].0.as_str().as_bytes();
        if !comes_before(here, word) {
            return k;
        }
        k += 1;
    }
    k
}

/// Add `word` to a ranked list of keyed words: a word already there takes the
/// new tiles into its mask, a new one goes in at its place.
fn insert_keyed(list: &mut Vec<(String, u16)>, word: String, mask: u16) -> (k: usize)
    requires
        ranked(keys(old(list)@)),
    ensures
        ranked(keys(final(list)@)),
        keys(old(list)@).contains(string_bytes(word)) ==> k < old(list)@.len() && keys(old(list)@)[k as int]
            == string_bytes(word) && final(list)@ == old(list)@.update(
            k as int,
            (old(list)@[k as int].0, old(list)@[k as int].1 | mask),
        ),
        !keys(old(list)@).contains(string_bytes(word)) ==> k <= old(list)@.len() && final(list)@
            == old(list)@.insert(k as int, (word, mask)),
{
    let ghost w = string_bytes(word);
    let ghost before = keys(list@);
    let k = keyed_position(list, word.as_str().as_bytes());
    if k < list.len() && !comes_before(word.as_str().as_bytes(), list[k].0.as_str().as_bytes()) {
        proof {
            lemma_rank_order(before[k as int], w, w);
            assert(before[k as int] == w);
        }
        let entry = list.remove(k);
        list.insert(k, (entry.0, entry.1 | mask));
        proof {
            assert(list@ =~= old(list)@.update(k as int, (old(list)@[k as int].0, old(list)@[k as int].1 | mask)));
            assert(keys(list@) =~= before);
        }
        k
    } else {
        proof {
            if k < list@.len() {
                lemma_rank_order(before[k as int], w, w);
            }
            lemma_ranked_insert(before, w, k as int);
        }
        list.insert(k, (word, mask));
        proof {
            assert(keys(list@) =~= before.insert(k as int, w));
        }
        k
    }
}

/// Where `word` belongs in a ranked list of words.
fn word_position(list: &Vec<String>, word: &[u8]) -> (k: usize)
    ensures
        k <= list@.len(),
        forall|j: int| 0 <= j < k ==> ranks_before(#[trigger] bytes_of(list@)[j], word@),
        k < list@.len() ==> !ranks_before(bytes_of(list@)[k as int], word@),
{
    let mut k: usize = 0;
    while k < list.len()
        invariant
            0 <= k <= list@.len(),
            forall|j: int| 0 <= j < k ==> ranks_before(#[trigger] bytes_of(list@)[j], word@),
        decreases list@.len() - k,
    {
        let here = list[k].as_str().as_bytes();
        if !comes_before(here, word) {
            return k;
        }
        k += 1;
    }
    k
}

/// Add `word` to a ranked list of words, unless it is there already.
pub fn insert_word(list: &mut Vec<String>, word: String) -> (k: usize)
    requires
        ranked(bytes_of(old(list)@)),
    ensures
        ranked(bytes_of(final(list)@)),
        bytes_of(old(list)@).contains(string_bytes(word)) ==> final(list)@ == old(list)@,
        !bytes_of(old(list)@).contains(string_bytes(word)) ==> k <= old(list)@.len() && final(list)@
            == old(list)@.insert(k as int, word),
{
    let ghost w = string_bytes(word);
    let ghost before = bytes_of(list@);
    let k = word_position(list, word.as_str().as_bytes());
    if k < list.len() && !comes_before(word.as_str().as_bytes(), list[k].as_str().as_bytes()) {
        proof {
            lemma_rank_order(before[k as int], w, w);
            assert(before[k as int] == w);
        }
        k
    } else {
        proof {
            if k < list@.len() {
                lemma_rank_order(before[k as int], w, w);
            }
            lemma_ranked_insert(before, w, k as int);
        }
        list.insert(k, word);
        proof {
            assert(bytes_of(list@) =~= before.insert(k as int, w));
        }
        k
    }
}


/// The index of a tile, row by row.
pub open spec fn slot(p: Position) -> int {
    p.row * 4 + p.col
}

/// The tile at an index.
pub open spec fn slot_tile(s: int) -> Position {
    Position { row: (s / 4) as usize, col: (s % 4) as usize }
}

/// Whether a set of tiles, one bit each, holds the tile at index `s`.
pub open spec fn has_tile(mask: u16, s: u16) -> bool {
    mask & (1u16 << s) != 0
}

/// `mask` holds exactly the tiles of `path`.
pub open spec fn mask_of_path(mask: u16, path: Seq<Position>) -> bool {
    forall|s: u16| s < 16 ==> (#[trigger] has_tile(mask, s) <==> path.contains(slot_tile(s as int)))
}

proof fn lemma_has_tile_or(a: u16, b: u16, s: u16)
    requires
        s < 16,
    ensures
        has_tile(a | b, s) == (has_tile(a, s) || has_tile(b, s)),
{
    assert((a | b) & (1u16 << s) != 0 <==> (a & (1u16 << s) != 0 || b & (1u16 << s) != 0))
        by (bit_vector)
        requires
            s < 16,
    ;
}

proof fn lemma_has_tile_one(t: u16, s: u16)
    requires
        t < 16,
        s < 16,
    ensures
        has_tile(1u16 << t, s) == (s == t),
{
    assert((1u16 << t) & (1u16 << s) != 0 <==> s == t) by (bit_vector)
        requires
            t < 16,
            s < 16,
    ;
}

proof fn lemma_has_tile_none(s: u16)
    requires
        s < 16,
    ensures
        !has_tile(0, s),
{
    assert(0u16 & (1u16 << s) == 0) by (bit_vector);
}

/// How many of the first `n` tiles a mask leaves out.
pub open spec fn free_tiles(mask: u16, n: nat) -> nat
    decreases n,
{
    if n == 0 {
        0
    } else {
        free_tiles(mask, (n - 1) as nat) + if has_tile(mask, (n - 1) as u16) {
            0nat
        } else {
            1nat
        }
    }
}

proof fn lemma_free_tiles_claim(mask: u16, t: u16, n: nat)
    requires
        t < 16,
        n <= 16,
        !has_tile(mask, t),
    ensures
        free_tiles(mask | (1u16 << t), n) + (if t < n {
            1nat
        } else {
            0nat
        }) == free_tiles(mask, n),
    decreases n,
{
    if n > 0 {
        lemma_free_tiles_claim(mask, t, (n - 1) as nat);
        let s = (n - 1) as u16;
        lemma_has_tile_or(mask, 1u16 << t, s);
        lemma_has_tile_one(t, s);
    }
}

/// Taking one more tile into the mask of a path: the mask of the longer path,
/// with one tile fewer left free.
pub proof fn lemma_mask_push(visited: u16, pre: Seq<Position>, at: Position)
    requires
        mask_of_path(visited, pre),
        in_board(at),
        !pre.contains(at),
    ensures
        mask_of_path(visited | (1u16 << ((at.row * 4 + at.col) as u16)), pre.push(at)),
        free_tiles(visited | (1u16 << ((at.row * 4 + at.col) as u16)), 16) + 1 == free_tiles(visited, 16),
        (visited & (1u16 << ((at.row * 4 + at.col) as u16))) == 0,
{
    let st = (at.row * 4 + at.col) as u16;
    let bit = 1u16 << st;
    let q = pre.push(at);
    assert(slot_tile(st as int) == at);
    assert(!has_tile(visited, st));
    assert forall|s: u16| s < 16 implies (#[trigger] has_tile(visited | bit, s) <==> q.contains(
        slot_tile(s as int),
    )) by {
        lemma_has_tile_or(visited, bit, s);
        lemma_has_tile_one(st, s);
        if q.contains(slot_tile(s as int)) {
            let i = choose|i: int| 0 <= i < q.len() && q[i] == slot_tile(s as int);
            if i < pre.len() {
                assert(pre.contains(slot_tile(s as int)));
            }
        }
        if pre.contains(slot_tile(s as int)) {
            let i = choose|i: int| 0 <= i < pre.len() && pre[i] == slot_tile(s as int);
            assert(q[i] == pre[i]);
        }
        if s == st {
            assert(q[pre.len() as int] == at);
        }
    }
    lemma_free_tiles_claim(visited, st, 16);
}

/// The mask of a path holds a tile exactly when the path does.
pub proof fn lemma_mask_holds(visited: u16, pre: Seq<Position>, at: Position)
    requires
        mask_of_path(visited, pre),
        in_board(at),
    ensures
        ((visited & (1u16 << ((at.row * 4 + at.col) as u16))) != 0) == pre.contains(at),
{
    let st = (at.row * 4 + at.col) as u16;
    assert(slot_tile(st as int) == at);
    assert(has_tile(visited, st) == pre.contains(at));
}

/// The empty path has the empty mask, which leaves every tile free.
pub proof fn lemma_mask_empty()
    ensures
        mask_of_path(0, Seq::<Position>::empty()),
        forall|s: u16| s < 16 ==> !has_tile(0, s),
        free_tiles(0, 16) == 16,
{
    assert forall|s: u16| s < 16 implies !has_tile(0, s) by {
        lemma_has_tile_none(s);
    }
    lemma_free_none(16);
}

proof fn lemma_free_none(n: nat)
    requires
        n <= 16,
    ensures
        free_tiles(0, n) == n,
    decreases n,
{
    if n > 0 {
        lemma_free_none((n - 1) as nat);
        lemma_has_tile_none((n - 1) as u16);
    }
}

/// A path whose letters make a word the dictionary takes: what the walk reports.
pub open spec fn is_hit(g: Grid, d: Dictionary, p: Seq<Position>) -> bool {
    &&& p.len() >= 1
    &&& valid_path(p)
    &&& spelled(g, p).len() >= 3
    &&& d.accepted().contains(spelled(g, p))
}

/// Some accepted word goes on past the letters `s`: the trie has somewhere
/// further to go.
pub open spec fn goes_on(d: Dictionary, s: Seq<u8>) -> bool {
    exists|b: u8| #[trigger] d.is_prefix(s.push(b))
}

/// The walk follows `p` to its last tile: at each tile before that, some
/// accepted word goes on past the letters spelled so far. On a board whose
/// tiles all show letters every path to a word qualifies; a path can fail it
/// only by going on over tiles that show nothing once the trie has nowhere
/// further to go.
pub open spec fn walked(g: Grid, d: Dictionary, p: Seq<Position>) -> bool {
    forall|k: int| 1 <= k < p.len() ==> #[trigger] goes_on(d, spelled(g, p.take(k)))
}

/// Every reported path that goes on from `q`, `q` itself included: a path to
/// a word that the walk follows on from `q`.
pub open spec fn extensions(g: Grid, d: Dictionary, q: Seq<Position>) -> Set<Seq<Position>> {
    Set::new(
        |p: Seq<Position>|
            is_hit(g, d, p) && q.len() <= p.len() && p.take(q.len() as int) == q && forall|k: int|
                q.len() <= k < p.len() ==> #[trigger] goes_on(d, spelled(g, p.take(k))),
    )
}

pub open spec fn spelled_by(hits: Set<Seq<Position>>, g: Grid, w: Seq<u8>) -> bool {
    exists|p: Seq<Position>| #[trigger] hits.contains(p) && spelled(g, p) == w
}

pub open spec fn spelled_through(hits: Set<Seq<Position>>, g: Grid, w: Seq<u8>, s: u16) -> bool {
    exists|p: Seq<Position>| #[trigger] hits.contains(p) && spelled(g, p) == w && p.contains(slot_tile(s as int))
}

/// The two lists report exactly the words the paths in `hits` spell, split by
/// tier, each common word with the tiles of every path that spells it.
pub open spec fn records(
    g: Grid,
    d: Dictionary,
    hits: Set<Seq<Position>>,
    common: Seq<(String, u16)>,
    obscure: Seq<String>,
) -> bool {
    &&& forall|p: Seq<Position>| #[trigger] hits.contains(p) ==> is_hit(g, d, p)
    &&& ranked(keys(common))
    &&& ranked(bytes_of(obscure))
    &&& forall|i: int|
        0 <= i < common.len() ==> d.common().contains(#[trigger] keys(common)[i]) && spelled_by(
            hits,
            g,
            keys(common)[i],
        )
    &&& forall|i: int, s: u16|
        0 <= i < common.len() && s < 16 ==> (#[trigger] has_tile(common[i].1, s) <==> spelled_through(
            hits,
            g,
            keys(common)[i],
            s,
        ))
    &&& forall|p: Seq<Position>|
        #[trigger] hits.contains(p) && d.common().contains(spelled(g, p)) ==> keys(common).contains(
            spelled(g, p),
        )
    &&& forall|i: int|
        0 <= i < obscure.len() ==> !d.common().contains(#[trigger] bytes_of(obscure)[i]) && spelled_by(
            hits,
            g,
            bytes_of(obscure)[i],
        )
    &&& forall|p: Seq<Position>|
        #[trigger] hits.contains(p) && !d.common().contains(spelled(g, p)) ==> bytes_of(obscure).contains(
            spelled(g, p),
        )
}

proof fn lemma_distinct_keys(words: Seq<Seq<u8>>, i: int, j: int)
    requires
        ranked(words),
        0 <= i < words.len(),
        0 <= j < words.len(),
        i != j,
    ensures
        words[i] != words[j],
{
    lemma_rank_order(words[i], words[i], words[i]);
    lemma_rank_order(words[j], words[j], words[j]);
}

/// Recording one more path that spells a common word.
proof fn lemma_record_common(
    g: Grid,
    d: Dictionary,
    hits: Set<Seq<Position>>,
    common: Seq<(String, u16)>,
    obscure: Seq<String>,
    q: Seq<Position>,
    word: String,
    mask: u16,
    k: int,
    after: Seq<(String, u16)>,
)
    requires
        records(g, d, hits, common, obscure),
        is_hit(g, d, q),
        d.common().contains(spelled(g, q)),
        string_bytes(word) == spelled(g, q),
        mask_of_path(mask, q),
        ranked(keys(after)),
        keys(common).contains(spelled(g, q)) ==> 0 <= k < common.len() && keys(common)[k] == spelled(
            g,
            q,
        ) && after == common.update(k, (common[k].0, common[k].1 | mask)),
        !keys(common).contains(spelled(g, q)) ==> 0 <= k <= common.len() && after == common.insert(
            k,
            (word, mask),
        ),
    ensures
        records(g, d, hits.insert(q), after, obscure),
{
    let h2 = hits.insert(q);
    let w = spelled(g, q);
    let old_keys = keys(common);
    let new_keys = keys(after);
    assert(h2.contains(q));
    if old_keys.contains(w) {
        assert(new_keys =~= old_keys);
        assert forall|i: int| 0 <= i < after.len() implies d.common().contains(#[trigger] keys(after)[i])
            && spelled_by(h2, g, keys(after)[i]) by {
            assert(keys(after)[i] == keys(common)[i]);
            let p = choose|p: Seq<Position>| #[trigger] hits.contains(p) && spelled(g, p) == keys(common)[i];
            assert(h2.contains(p));
        }
        assert forall|i: int, s: u16| 0 <= i < after.len() && s < 16 implies (#[trigger] has_tile(
            after[i].1,
            s,
        ) <==> spelled_through(h2, g, keys(after)[i], s)) by {
            assert(keys(after)[i] == keys(common)[i]);
            if spelled_through(hits, g, keys(common)[i], s) {
                let p = choose|p: Seq<Position>| #[trigger] hits.contains(p) && spelled(g, p) == keys(common)[i]
                    && p.contains(slot_tile(s as int));
                assert(h2.contains(p));
            }
            if spelled_through(h2, g, keys(after)[i], s) {
                let p = choose|p: Seq<Position>| #[trigger] h2.contains(p) && spelled(g, p) == keys(after)[i]
                    && p.contains(slot_tile(s as int));
                if p != q {
                    assert(hits.contains(p));
                }
            }
            if i == k {
                lemma_has_tile_or(common[k].1, mask, s);
            } else {
                lemma_distinct_keys(old_keys, i, k);
                assert(after[i] == common[i]);
            }
        }
        assert forall|p: Seq<Position>|
            #[trigger] h2.contains(p) && d.common().contains(spelled(g, p)) implies keys(after).contains(
            spelled(g, p),
        ) by {
            if p != q {
                assert(hits.contains(p));
            }
        }
        assert forall|i: int| 0 <= i < obscure.len() implies !d.common().contains(
            #[trigger] bytes_of(obscure)[i],
        ) && spelled_by(h2, g, bytes_of(obscure)[i]) by {
            let p = choose|p: Seq<Position>| #[trigger] hits.contains(p) && spelled(g, p) == bytes_of(obscure)[i];
            assert(h2.contains(p));
        }
        assert forall|p: Seq<Position>|
            #[trigger] h2.contains(p) && !d.common().contains(spelled(g, p)) implies bytes_of(obscure).contains(
            spelled(g, p),
        ) by {
            if p != q {
                assert(hits.contains(p));
            }
        }
    } else {
        assert(new_keys =~= old_keys.insert(k, w));
        assert forall|i: int| 0 <= i < after.len() implies d.common().contains(#[trigger] keys(after)[i])
            && spelled_by(h2, g, keys(after)[i]) by {
            if i < k {
                assert(keys(after)[i] == keys(common)[i]);
            } else if i > k {
                assert(keys(after)[i] == keys(common)[i - 1]);
            }
            if i != k {
                let j = if i < k { i } else { i - 1 };
                let p = choose|p: Seq<Position>| #[trigger] hits.contains(p) && spelled(g, p) == keys(common)[j];
                assert(h2.contains(p));
            }
        }
        assert forall|i: int, s: u16| 0 <= i < after.len() && s < 16 implies (#[trigger] has_tile(
            after[i].1,
            s,
        ) <==> spelled_through(h2, g, keys(after)[i], s)) by {
            if i == k {
                if spelled_through(h2, g, w, s) {
                    let p = choose|p: Seq<Position>| #[trigger] h2.contains(p) && spelled(g, p) == w
                        && p.contains(slot_tile(s as int));
                    if p != q {
                        assert(hits.contains(p));
                        assert(old_keys.contains(w));
                    }
                }
            } else {
                let j = if i < k { i } else { i - 1 };
                assert(after[i] == common[j]);
                assert(keys(after)[i] == keys(common)[j]);
                assert(old_keys[j] != w);
                if spelled_through(hits, g, keys(common)[j], s) {
                    let p = choose|p: Seq<Position>| #[trigger] hits.contains(p) && spelled(g, p) == keys(common)[j]
                        && p.contains(slot_tile(s as int));
                    assert(h2.contains(p));
                }
                if spelled_through(h2, g, keys(after)[i], s) {
                    let p = choose|p: Seq<Position>| #[trigger] h2.contains(p) && spelled(g, p) == keys(after)[i]
                        && p.contains(slot_tile(s as int));
                    if p != q {
                        assert(hits.contains(p));
                    }
                }
            }
        }
        assert forall|p: Seq<Position>|
            #[trigger] h2.contains(p) && d.common().contains(spelled(g, p)) implies keys(after).contains(
            spelled(g, p),
        ) by {
            if p != q {
                assert(hits.contains(p));
                let j = choose|j: int| 0 <= j < old_keys.len() && old_keys[j] == spelled(g, p);
                if j < k {
                    assert(new_keys[j] == old_keys[j]);
                } else {
                    assert(new_keys[j + 1] == old_keys[j]);
                }
            } else {
                assert(new_keys[k] == w);
            }
        }
        assert forall|i: int| 0 <= i < obscure.len() implies !d.common().contains(
            #[trigger] bytes_of(obscure)[i],
        ) && spelled_by(h2, g, bytes_of(obscure)[i]) by {
            let p = choose|p: Seq<Position>| #[trigger] hits.contains(p) && spelled(g, p) == bytes_of(obscure)[i];
            assert(h2.contains(p));
        }
        assert forall|p: Seq<Position>|
            #[trigger] h2.contains(p) && !d.common().contains(spelled(g, p)) implies bytes_of(obscure).contains(
            spelled(g, p),
        ) by {
            if p != q {
                assert(hits.contains(p));
            }
        }
    }
}


/// Recording one more path that spells an obscure word.
proof fn lemma_record_obscure(
    g: Grid,
    d: Dictionary,
    hits: Set<Seq<Position>>,
    common: Seq<(String, u16)>,
    obscure: Seq<String>,
    q: Seq<Position>,
    word: String,
    k: int,
    after: Seq<String>,
)
    requires
        records(g, d, hits, common, obscure),
        is_hit(g, d, q),
        !d.common().contains(spelled(g, q)),
        string_bytes(word) == spelled(g, q),
        ranked(bytes_of(after)),
        bytes_of(obscure).contains(spelled(g, q)) ==> after == obscure,
        !bytes_of(obscure).contains(spelled(g, q)) ==> 0 <= k <= obscure.len() && after == obscure.insert(
            k,
            word,
        ),
    ensures
        records(g, d, hits.insert(q), common, after),
{
    let h2 = hits.insert(q);
    let w = spelled(g, q);
    let old_words = bytes_of(obscure);
    let new_words = bytes_of(after);
    assert(h2.contains(q));
    if !old_words.contains(w) {
        assert(new_words =~= old_words.insert(k, w));
    }
    assert forall|i: int| 0 <= i < common.len() implies d.common().contains(#[trigger] keys(common)[i])
        && spelled_by(h2, g, keys(common)[i]) by {
        let p = choose|p: Seq<Position>| #[trigger] hits.contains(p) && spelled(g, p) == keys(common)[i];
        assert(h2.contains(p));
    }
    assert forall|i: int, s: u16| 0 <= i < common.len() && s < 16 implies (#[trigger] has_tile(
        common[i].1,
        s,
    ) <==> spelled_through(h2, g, keys(common)[i], s)) by {
        if spelled_through(hits, g, keys(common)[i], s) {
            let p = choose|p: Seq<Position>| #[trigger] hits.contains(p) && spelled(g, p) == keys(common)[i]
                && p.contains(slot_tile(s as int));
            assert(h2.contains(p));
        }
        if spelled_through(h2, g, keys(common)[i], s) {
            let p = choose|p: Seq<Position>| #[trigger] h2.contains(p) && spelled(g, p) == keys(common)[i]
                && p.contains(slot_tile(s as int));
            if p != q {
                assert(hits.contains(p));
            }
        }
    }
    assert forall|p: Seq<Position>|
        #[trigger] h2.contains(p) && d.common().contains(spelled(g, p)) implies keys(common).contains(
        spelled(g, p),
    ) by {
        if p != q {
            assert(hits.contains(p));
        }
    }
    assert forall|i: int| 0 <= i < after.len() implies !d.common().contains(#[trigger] bytes_of(after)[i])
        && spelled_by(h2, g, bytes_of(after)[i]) by {
        if old_words.contains(w) {
            let p = choose|p: Seq<Position>| #[trigger] hits.contains(p) && spelled(g, p) == bytes_of(obscure)[i];
            assert(h2.contains(p));
        } else if i != k {
            let j = if i < k { i } else { i - 1 };
            assert(new_words[i] == old_words[j]);
            let p = choose|p: Seq<Position>| #[trigger] hits.contains(p) && spelled(g, p) == old_words[j];
            assert(h2.contains(p));
        }
    }
    assert forall|p: Seq<Position>|
        #[trigger] h2.contains(p) && !d.common().contains(spelled(g, p)) implies bytes_of(after).contains(
        spelled(g, p),
    ) by {
        if p != q {
            assert(hits.contains(p));
            if !old_words.contains(w) {
                let j = choose|j: int| 0 <= j < old_words.len() && old_words[j] == spelled(g, p);
                if j < k {
                    assert(new_words[j] == old_words[j]);
                } else {
                    assert(new_words[j + 1] == old_words[j]);
                }
            }
        } else if !old_words.contains(w) {
            assert(new_words[k] == w);
        }
    }
}

/// A path that starts with `q` spells what `q` spells and then some.
proof fn lemma_prefix_spells(g: Grid, q: Seq<Position>, p: Seq<Position>)
    requires
        q.len() <= p.len(),
        p.take(q.len() as int) == q,
    ensures
        spelled(g, q).is_prefix_of(spelled(g, p)),
{
    lemma_spelled_concat(g, q, p.skip(q.len() as int));
    assert(q + p.skip(q.len() as int) =~= p);
}


/// A path that steps back onto a tile it holds goes nowhere.
proof fn lemma_no_extension_repeat(g: Grid, d: Dictionary, pre: Seq<Position>, at: Position)
    requires
        pre.contains(at),
    ensures
        extensions(g, d, pre.push(at)) =~= Set::<Seq<Position>>::empty(),
{
    let q = pre.push(at);
    assert forall|p: Seq<Position>| !#[trigger] extensions(g, d, q).contains(p) by {
        if extensions(g, d, q).contains(p) {
            let i = choose|i: int| 0 <= i < pre.len() && pre[i] == at;
            assert(p[i] == q[i]);
            assert(p[pre.len() as int] == q[pre.len() as int]);
        }
    }
}

/// A path whose letters no accepted word starts with goes nowhere.
proof fn lemma_no_extension_unspelled(g: Grid, d: Dictionary, q: Seq<Position>)
    requires
        !d.is_prefix(spelled(g, q)),
    ensures
        extensions(g, d, q) =~= Set::<Seq<Position>>::empty(),
{
    assert forall|p: Seq<Position>| !#[trigger] extensions(g, d, q).contains(p) by {
        if extensions(g, d, q).contains(p) {
            lemma_prefix_spells(g, q, p);
            assert(d.accepted().contains(spelled(g, p)));
        }
    }
}

/// Past a path whose letters no accepted word goes on from, only the path itself
/// can be reported.
proof fn lemma_no_extension_dead(g: Grid, d: Dictionary, q: Seq<Position>)
    requires
        !goes_on(d, spelled(g, q)),
    ensures
        forall|p: Seq<Position>| #[trigger] extensions(g, d, q).contains(p) ==> p == q,
{
    assert forall|p: Seq<Position>| #[trigger] extensions(g, d, q).contains(p) implies p == q by {
        if p.len() > q.len() {
            assert(goes_on(d, spelled(g, p.take(q.len() as int))));
        } else {
            assert(p =~= p.take(q.len() as int));
        }
    }
}

/// What goes on past `q` goes on through one of the last tile's neighbours;
/// and when the trie goes on past `q`, what goes on past a neighbour goes on
/// past `q`.
proof fn lemma_extension_split(g: Grid, d: Dictionary, q: Seq<Position>, at: Position)
    requires
        q.len() >= 1,
        q.last() == at,
    ensures
        forall|p: Seq<Position>|
            #[trigger] extensions(g, d, q).contains(p) ==> p == q || exists|e: int|
                around_ok(at, e) && #[trigger] extensions(g, d, q.push(around(at, e))).contains(p),
        goes_on(d, spelled(g, q)) ==> forall|n: Position, p: Seq<Position>|
            #[trigger] extensions(g, d, q.push(n)).contains(p) ==> extensions(g, d, q).contains(p),
{
    assert forall|p: Seq<Position>|
        #[trigger] extensions(g, d, q).contains(p) implies p == q || exists|e: int|
            around_ok(at, e) && #[trigger] extensions(g, d, q.push(around(at, e))).contains(p) by {
        if p.len() > q.len() {
            let n = p[q.len() as int];
            assert(p[q.len() - 1] == at);
            assert(adjacent(at, n));
            assert(in_board(n));
            let e = ((n.row - at.row + 1) * 3 + (n.col - at.col + 1)) as int;
            assert(around(at, e) == n);
            assert(around_ok(at, e));
            assert(p.take(q.len() as int + 1) =~= q.push(n));
            assert(extensions(g, d, q.push(around(at, e))).contains(p));
        } else {
            assert(p =~= p.take(q.len() as int));
        }
    }
    if goes_on(d, spelled(g, q)) {
        assert forall|n: Position, p: Seq<Position>|
            #[trigger] extensions(g, d, q.push(n)).contains(p) implies extensions(g, d, q).contains(p) by {
            assert(p.take(q.len() as int) =~= p.take(q.len() as int + 1).take(q.len() as int));
            assert(q.push(n).take(q.len() as int) =~= q);
            assert forall|k: int| q.len() <= k < p.len() implies #[trigger] goes_on(d, spelled(g, p.take(k))) by {
                if k == q.len() {
                    assert(p.take(k) == q);
                }
            }
        }
    }
}

/// Walk on from `pre` onto the tile `at`, following the trie from `node`, and
/// report every word found on the way. `visited` holds the tiles of `pre`, and
/// `node` and `word` what `pre` spells.
fn walk(
    dict: &Dictionary,
    grid: &Grid,
    at: Position,
    visited: u16,
    node: NodeId,
    word: &String,
    common: &mut Vec<(String, u16)>,
    obscure: &mut Vec<String>,
    Ghost(pre): Ghost<Seq<Position>>,
    Ghost(hits): Ghost<Set<Seq<Position>>>,
)
    requires
        dict.wf(),
        dict.valid_node(node),
        valid_path(pre),
        in_board(at),
        pre.len() == 0 || adjacent(pre.last(), at),
        mask_of_path(visited, pre),
        dict.path(node) == spelled(*grid, pre),
        string_bytes(*word) == spelled(*grid, pre),
        records(*grid, *dict, hits, old(common)@, old(obscure)@),
    ensures
        records(
            *grid,
            *dict,
            hits.union(extensions(*grid, *dict, pre.push(at))),
            final(common)@,
            final(obscure)@,
        ),
    decreases free_tiles(visited, 16),
{
    let ghost g = *grid;
    let ghost d = *dict;
    let ghost q = pre.push(at);
    let st: u16 = (at.row * 4 + at.col) as u16;
    let bit: u16 = 1u16 << st;
    proof {
        assert(slot_tile(st as int) == at);
    }
    if visited & bit != 0 {
        proof {
            assert(has_tile(visited, st));
            lemma_no_extension_repeat(g, d, pre, at);
            assert(hits.union(extensions(g, d, q)) =~= hits);
        }
        return;
    }
    let letters = grid[at.row][at.col].letters;
    proof {
        assert(letters.spec_bytes() == tile(g, at));
        lemma_spelled_push(g, pre, at);
    }
    let next = match dict.step_str(node, letters) {
        Some(n) => n,
        None => {
            proof {
                lemma_no_extension_unspelled(g, d, q);
                assert(hits.union(extensions(g, d, q)) =~= hits);
            }
            return;
        },
    };
    let here = extended(word, letters);
    let seen = visited | bit;
    proof {
        assert(!has_tile(visited, st));
        assert(mask_of_path(seen, q)) by {
            assert forall|s: u16| s < 16 implies (#[trigger] has_tile(seen, s) <==> q.contains(
                slot_tile(s as int),
            )) by {
                lemma_has_tile_or(visited, bit, s);
                lemma_has_tile_one(st, s);
                if q.contains(slot_tile(s as int)) {
                    let i = choose|i: int| 0 <= i < q.len() && q[i] == slot_tile(s as int);
                    if i < pre.len() {
                        assert(pre.contains(slot_tile(s as int)));
                    }
                }
                if pre.contains(slot_tile(s as int)) {
                    let i = choose|i: int| 0 <= i < pre.len() && pre[i] == slot_tile(s as int);
                    assert(q[i] == pre[i]);
                }
                if s == st {
                    assert(q[pre.len() as int] == at);
                }
            }
        }
        lemma_free_tiles_claim(visited, st, 16);
        assert(valid_path(q)) by {
            assert forall|a: int, b: int| 0 <= a < b < q.len() implies q[a] != q[b] by {
                if b == pre.len() && q[a] == at {
                    assert(pre.contains(at));
                    assert(has_tile(visited, st));
                }
            }
        }
    }
    let ghost h1 = if is_hit(g, d, q) { hits.insert(q) } else { hits };
    proof {
        assert(q.take(q.len() as int) =~= q);
        assert(is_hit(g, d, q) ==> extensions(g, d, q).contains(q));
        assert(dict.path(next) == spelled(g, q));
        assert(string_bytes(here) == spelled(g, q));
    }
    let spelled_len = here.as_str().as_bytes().len();
    proof {
        assert(spelled_len == string_bytes(here).len());
    }
    if spelled_len >= 3 && dict.is_word_node(next) {
        proof {
            assert(is_hit(g, d, q));
        }
        if dict.is_common_node(next) {
            let ghost before = common@;
            let k = insert_keyed(common, here.clone(), seen);
            proof {
                lemma_record_common(g, d, hits, before, obscure@, q, here, seen, k as int, common@);
            }
        } else {
            let ghost before = obscure@;
            let k = insert_word(obscure, here.clone());
            proof {
                lemma_record_obscure(g, d, hits, common@, before, q, here, k as int, obscure@);
            }
        }
    } else {
        proof {
            assert(!is_hit(g, d, q));
        }
    }
    proof {
        lemma_extension_split(g, d, q, at);
    }
    if dict.is_dead_end(next) {
        proof {
            lemma_no_extension_dead(g, d, q);
            assert(hits.union(extensions(g, d, q)) =~= h1);
        }
        return;
    }
    proof {
        let b = choose|b: u8| dict.is_prefix(#[trigger] dict.path(next).push(b));
        assert(d.is_prefix(spelled(g, q).push(b)));
    }
    let ghost mut acc = h1;
    let mut e: usize = 0;
    while e < 9
        invariant
            dict.wf(),
            g == *grid,
            d == *dict,
            dict.valid_node(next),
            q == pre.push(at),
            q.len() >= 1,
            q.last() == at,
            valid_path(q),
            in_board(at),
            mask_of_path(seen, q),
            free_tiles(seen, 16) < free_tiles(visited, 16),
            dict.path(next) == spelled(g, q),
            string_bytes(here) == spelled(g, q),
            records(g, d, acc, common@, obscure@),
            0 <= e <= 9,
            forall|p: Seq<Position>| #[trigger] acc.contains(p) ==> hits.contains(p) || extensions(g, d, q).contains(p),
            forall|p: Seq<Position>| #[trigger] hits.contains(p) ==> acc.contains(p),
            is_hit(g, d, q) ==> acc.contains(q),
            forall|f: int, p: Seq<Position>|
                0 <= f < e && around_ok(at, f) && #[trigger] extensions(g, d, q.push(around(at, f))).contains(p)
                    ==> acc.contains(p),
            forall|n: Position, p: Seq<Position>|
                #[trigger] extensions(g, d, q.push(n)).contains(p) ==> extensions(g, d, q).contains(p),
        decreases 9 - e,
    {
        let rr = at.row + e / 3;
        let cc = at.col + e % 3;
        if e != 4 && rr >= 1 && rr <= 4 && cc >= 1 && cc <= 4 {
            let n = Position { row: rr - 1, col: cc - 1 };
            proof {
                assert(e / 3 <= 2 && e % 3 <= 2);
                assert(e / 3 == 1 && e % 3 == 1 ==> e == 4);
                assert(n == around(at, e as int));
                assert(around_ok(at, e as int));
                assert(adjacent(q.last(), n));
            }
            walk(dict, grid, n, seen, next, &here, common, obscure, Ghost(q), Ghost(acc));
            proof {
                acc = acc.union(extensions(g, d, q.push(n)));
            }
        }
        e += 1;
    }
    proof {
        assert(acc =~= hits.union(extensions(g, d, q))) by {
            assert forall|p: Seq<Position>| #[trigger] extensions(g, d, q).contains(p) implies acc.contains(p) by {
                if p != q {
                    let f = choose|f: int| around_ok(at, f) && #[trigger] extensions(g, d, q.push(around(at, f))).contains(p);
                } else {
                    assert(is_hit(g, d, q));
                }
            }
        }
    }
}


/// Everything hiding on a board, split by tier.
#[derive(Clone)]
pub struct BoardWords {
    /// Ordinary words: what the board is scored and judged against.
    pub common: Vec<String>,
    /// Accepted when traced, but too obscure to hold anyone to.
    pub obscure: Vec<String>,
    /// Words belonging to the board's theme, if it has one.
    pub theme: Vec<String>,
    /// For each tile, how many common words can be traced through it (along
    /// the paths the solver walks, which on a board of letters is every path).
    pub coverage: [[u32; 4]; 4],
}

/// A word the board holds: three letters or more, accepted, and traceable.
pub open spec fn board_word(g: Grid, d: Dictionary, w: Seq<u8>) -> bool {
    &&& w.len() >= 3
    &&& d.accepted().contains(w)
    &&& traceable(g, w)
}

/// `w` can be traced through the tile `at`.
pub open spec fn passes(g: Grid, w: Seq<u8>, at: Position) -> bool {
    exists|p: Seq<Position>| traces(g, w, Some(at), p)
}

/// How many of `words` can be traced through the tile `at`.
pub open spec fn through_count(g: Grid, words: Seq<Seq<u8>>, at: Position) -> nat
    decreases words.len(),
{
    if words.len() == 0 {
        0
    } else {
        through_count(g, words.drop_last(), at) + if passes(g, words.last(), at) {
            1nat
        } else {
            0nat
        }
    }
}

/// `w` can be traced through the tile `at` along a path the walk follows.
pub open spec fn walk_passes(g: Grid, d: Dictionary, w: Seq<u8>, at: Position) -> bool {
    exists|p: Seq<Position>| traces(g, w, Some(at), p) && walked(g, d, p)
}

/// How many of `words` can be traced through the tile `at` along a path the
/// walk follows.
pub open spec fn walk_count(g: Grid, d: Dictionary, words: Seq<Seq<u8>>, at: Position) -> nat
    decreases words.len(),
{
    if words.len() == 0 {
        0
    } else {
        walk_count(g, d, words.drop_last(), at) + if walk_passes(g, d, words.last(), at) {
            1nat
        } else {
            0nat
        }
    }
}

/// A count as a `u32`, held at the largest one there is.
pub open spec fn capped(n: nat) -> u32 {
    if n <= u32::MAX {
        n as u32
    } else {
        u32::MAX
    }
}

/// `words` lists exactly the words of `g`: the common tier and the obscure one,
/// each longest first and alphabetical within a length, and for each tile how
/// many common words the walk traces through it. On a board whose tiles all
/// show letters that is every common word traceable through the tile
/// (`lemma_lettered_coverage`).
pub open spec fn solves(g: Grid, d: Dictionary, words: BoardWords) -> bool {
    &&& ranked(bytes_of(words.common@))
    &&& ranked(bytes_of(words.obscure@))
    &&& forall|w: Seq<u8>|
        #[trigger] bytes_of(words.common@).contains(w) <==> d.common().contains(w) && board_word(g, d, w)
    &&& forall|w: Seq<u8>|
        #[trigger] bytes_of(words.obscure@).contains(w) <==> !d.common().contains(w) && board_word(
            g,
            d,
            w,
        )
    &&& forall|r: int, c: int|
        0 <= r < 4 && 0 <= c < 4 ==> #[trigger] words.coverage[r][c] == capped(
            walk_count(g, d, bytes_of(words.common@), Position { row: r as usize, col: c as usize }),
        )
}

/// Once every reported path is in, a common word's tiles are exactly the tiles
/// the walk can trace it through.
proof fn lemma_through_complete(
    g: Grid,
    d: Dictionary,
    hits: Set<Seq<Position>>,
    w: Seq<u8>,
    s: u16,
)
    requires
        forall|p: Seq<Position>| #[trigger] hits.contains(p) <==> is_hit(g, d, p) && walked(g, d, p),
        spelled_by(hits, g, w),
        s < 16,
    ensures
        spelled_through(hits, g, w, s) <==> walk_passes(g, d, w, slot_tile(s as int)),
{
    let at = slot_tile(s as int);
    let p0 = choose|p: Seq<Position>| #[trigger] hits.contains(p) && spelled(g, p) == w;
    assert(is_hit(g, d, p0));
    if spelled_through(hits, g, w, s) {
        let p = choose|p: Seq<Position>| #[trigger] hits.contains(p) && spelled(g, p) == w && p.contains(at);
        assert(is_hit(g, d, p));
        assert(traces(g, w, Some(at), p));
    }
    if walk_passes(g, d, w, at) {
        let p = choose|p: Seq<Position>| traces(g, w, Some(at), p) && walked(g, d, p);
        assert(is_hit(g, d, p));
        assert(hits.contains(p));
    }
}

/// Letters that an accepted word goes on past go on past in the trie.
proof fn lemma_goes_on_within(d: Dictionary, s: Seq<u8>, w: Seq<u8>)
    requires
        d.accepted().contains(w),
        s.is_prefix_of(w),
        s.len() < w.len(),
    ensures
        goes_on(d, s),
{
    let b = w[s.len() as int];
    assert(s.push(b).is_prefix_of(w)) by {
        assert forall|i: int| 0 <= i < s.len() + 1 implies #[trigger] s.push(b)[i] == w[i] by {
            if i < s.len() {
                assert(s[i] == w[i]);
            }
        }
    }
    assert(prefix_in_accepted(d, s.push(b), w));
    assert(d.is_prefix(s.push(b)));
}

spec fn prefix_in_accepted(d: Dictionary, s: Seq<u8>, w: Seq<u8>) -> bool {
    d.accepted().contains(w) && s.is_prefix_of(w)
}

/// A word traced at all is traced along a path the walk follows: cut a tracing
/// at the first tile where the word is spelled in full.
proof fn lemma_walked_tracing(g: Grid, d: Dictionary, w: Seq<u8>, through: Option<Position>, p: Seq<Position>)
    requires
        traces(g, w, through, p),
        d.accepted().contains(w),
        through is None,
    ensures
        exists|q: Seq<Position>| traces(g, w, None, q) && walked(g, d, q),
    decreases p.len(),
{
    if walked(g, d, p) {
        assert(traces(g, w, None, p));
    } else {
        let k = choose|k: int| 1 <= k < p.len() && !#[trigger] goes_on(d, spelled(g, p.take(k)));
        let q = p.take(k);
        assert(q.len() <= p.len() && p.take(q.len() as int) == q);
        lemma_prefix_spells(g, q, p);
        if spelled(g, q).len() < w.len() {
            lemma_goes_on_within(d, spelled(g, q), w);
        }
        assert(spelled(g, q) =~= w);
        assert(valid_path(q)) by {
            assert forall|i: int| 0 <= i < q.len() implies in_board(#[trigger] q[i]) by {
                assert(q[i] == p[i]);
            }
            assert forall|i: int, j: int| 0 <= i < j < q.len() implies q[i] != q[j] by {
                assert(q[i] == p[i] && q[j] == p[j]);
            }
            assert forall|i: int| 0 <= i < q.len() - 1 implies adjacent(#[trigger] q[i], q[i + 1]) by {
                assert(q[i] == p[i] && q[i + 1] == p[i + 1]);
            }
        }
        lemma_walked_tracing(g, d, w, None, q);
    }
}

/// On a board whose tiles all show letters, the walk follows every tracing of
/// an accepted word.
proof fn lemma_lettered_walk(g: Grid, d: Dictionary, w: Seq<u8>, at: Position)
    requires
        tiles_ok(g),
        d.accepted().contains(w),
    ensures
        walk_passes(g, d, w, at) == passes(g, w, at),
{
    if passes(g, w, at) {
        let p = choose|p: Seq<Position>| traces(g, w, Some(at), p);
        assert forall|k: int| 1 <= k < p.len() implies #[trigger] goes_on(d, spelled(g, p.take(k))) by {
            let q = p.take(k);
            let rest = p.skip(k);
            lemma_spelled_concat(g, q, rest);
            assert(q + rest =~= p);
            assert forall|i: int| 0 <= i < rest.len() implies in_board(#[trigger] rest[i]) by {
                assert(rest[i] == p[k + i]);
            }
            lemma_spelled_len(g, rest);
            lemma_prefix_spells(g, q, p);
            lemma_goes_on_within(d, spelled(g, q), w);
        }
        assert(traces(g, w, Some(at), p) && walked(g, d, p));
    }
}

proof fn lemma_lettered_count(g: Grid, d: Dictionary, words: Seq<Seq<u8>>, at: Position)
    requires
        tiles_ok(g),
        forall|i: int| 0 <= i < words.len() ==> d.accepted().contains(#[trigger] words[i]),
    ensures
        walk_count(g, d, words, at) == through_count(g, words, at),
    decreases words.len(),
{
    if words.len() > 0 {
        let rest = words.drop_last();
        assert forall|i: int| 0 <= i < rest.len() implies d.accepted().contains(#[trigger] rest[i]) by {
            assert(rest[i] == words[i]);
        }
        lemma_lettered_count(g, d, rest, at);
        lemma_lettered_walk(g, d, words.last(), at);
    }
}

/// On a board whose tiles all show letters, each tile's count is the number of
/// common words that can be traced through it at all.
pub proof fn lemma_lettered_coverage(g: Grid, d: Dictionary, words: BoardWords)
    requires
        tiles_ok(g),
        solves(g, d, words),
    ensures
        forall|r: int, c: int|
            0 <= r < 4 && 0 <= c < 4 ==> #[trigger] words.coverage[r][c] == capped(
                through_count(g, bytes_of(words.common@), Position { row: r as usize, col: c as usize }),
            ),
{
    let cw = bytes_of(words.common@);
    assert forall|i: int| 0 <= i < cw.len() implies d.accepted().contains(#[trigger] cw[i]) by {
        assert(cw.contains(cw[i]));
    }
    assert forall|r: int, c: int| 0 <= r < 4 && 0 <= c < 4 implies #[trigger] words.coverage[r][c] == capped(
        through_count(g, cw, Position { row: r as usize, col: c as usize }),
    ) by {
        lemma_lettered_count(g, d, cw, Position { row: r as usize, col: c as usize });
    }
}

/// Every word on the board, split by tier, each list longest first, with how
/// many common words pass through each tile. A tile that shows nothing adds no
/// letters to a path; the walk stops where the trie has nowhere further to go,
/// so on such a board a tile's count leaves out tracings that reach it only
/// over blank tiles after that point (see `walked`).
pub fn solve_board(dict: &Dictionary, grid: &Grid) -> (words: BoardWords)
    requires
        dict.wf(),
    ensures
        solves(*grid, *dict, words),
        words.theme@.len() == 0,
{
    let ghost g = *grid;
    let ghost d = *dict;
    let mut common: Vec<(String, u16)> = Vec::new();
    let mut obscure: Vec<String> = Vec::new();
    let ghost mut acc: Set<Seq<Position>> = Set::empty();
    let root = dict.root();
    let empty = String::new();
    proof {
        assert(keys(common@) =~= Seq::<Seq<u8>>::empty());
        assert(bytes_of(obscure@) =~= Seq::<Seq<u8>>::empty());
        assert(string_bytes(empty) =~= Seq::<u8>::empty());
        assert(spelled(g, Seq::<Position>::empty()) =~= Seq::<u8>::empty());
        assert(mask_of_path(0, Seq::<Position>::empty())) by {
            assert forall|s: u16| s < 16 implies (#[trigger] has_tile(0, s) <==> Seq::<Position>::empty().contains(
                slot_tile(s as int),
            )) by {
                lemma_has_tile_none(s);
            }
        }
    }
    let mut k: usize = 0;
    while k < 16
        invariant
            dict.wf(),
            g == *grid,
            d == *dict,
            root == 0,
            dict.valid_node(root),
            dict.path(root) == Seq::<u8>::empty(),
            string_bytes(empty) == Seq::<u8>::empty(),
            spelled(g, Seq::<Position>::empty()) == Seq::<u8>::empty(),
            mask_of_path(0, Seq::<Position>::empty()),
            0 <= k <= 16,
            records(g, d, acc, common@, obscure@),
            forall|p: Seq<Position>| #[trigger] acc.contains(p) ==> walked(g, d, p),
            forall|m: int, p: Seq<Position>|
                0 <= m < k && #[trigger] extensions(g, d, seq![slot_tile(m)]).contains(p) ==> acc.contains(p),
        decreases 16 - k,
    {
        let start = Position { row: k / 4, col: k % 4 };
        walk(dict, grid, start, 0, root, &empty, &mut common, &mut obscure, Ghost(Seq::empty()), Ghost(acc));
        proof {
            assert(Seq::<Position>::empty().push(start) =~= seq![slot_tile(k as int)]);
            assert forall|p: Seq<Position>| #[trigger] extensions(g, d, seq![slot_tile(k as int)]).contains(p) implies walked(g, d, p) by {
                assert forall|j: int| 1 <= j < p.len() implies #[trigger] goes_on(d, spelled(g, p.take(j))) by {}
            }
            acc = acc.union(extensions(g, d, seq![slot_tile(k as int)]));
        }
        k += 1;
    }
    proof {
        assert forall|p: Seq<Position>| #[trigger] acc.contains(p) <==> is_hit(g, d, p) && walked(g, d, p) by {
            if is_hit(g, d, p) && walked(g, d, p) {
                let m = slot(p[0]);
                assert(in_board(p[0]));
                assert(slot_tile(m) == p[0]);
                assert(p.take(1) =~= seq![slot_tile(m)]);
                assert(extensions(g, d, seq![slot_tile(m)]).contains(p));
            }
        }
    }
    let mut common_words: Vec<String> = Vec::new();
    let mut counts: Vec<u32> = vec![0u32; 16];
    let mut i: usize = 0;
    while i < common.len()
        invariant
            g == *grid,
            d == *dict,
            records(g, d, acc, common@, obscure@),
            forall|p: Seq<Position>| #[trigger] acc.contains(p) <==> is_hit(g, d, p) && walked(g, d, p),
            0 <= i <= common@.len(),
            bytes_of(common_words@) == keys(common@).take(i as int),
            counts@.len() == 16,
            forall|s: int|
                0 <= s < 16 ==> #[trigger] counts@[s] == capped(
                    walk_count(g, d, keys(common@).take(i as int), slot_tile(s)),
                ),
        decreases common@.len() - i,
    {
        let ghost done = keys(common@).take(i as int);
        let ghost upto = keys(common@).take(i + 1);
        let ghost w = keys(common@)[i as int];
        proof {
            assert(upto.drop_last() =~= done);
            assert(upto.last() == w);
        }
        let word = common[i].0.clone();
        common_words.push(word);
        proof {
            assert(bytes_of(common_words@) =~= upto);
        }
        let m = common[i].1;
        let mut s: usize = 0;
        while s < 16
            invariant
                records(g, d, acc, common@, obscure@),
                forall|p: Seq<Position>| #[trigger] acc.contains(p) <==> is_hit(g, d, p) && walked(g, d, p),
                0 <= i < common@.len(),
                m == common@[i as int].1,
                w == keys(common@)[i as int],
                upto.len() > 0,
                upto.drop_last() == done,
                upto.last() == w,
                0 <= s <= 16,
                counts@.len() == 16,
                forall|t: int|
                    0 <= t < s ==> #[trigger] counts@[t] == capped(walk_count(g, d, upto, slot_tile(t))),
                forall|t: int|
                    s <= t < 16 ==> #[trigger] counts@[t] == capped(walk_count(g, d, done, slot_tile(t))),
            decreases 16 - s,
        {
            let ghost t = s as u16;
            proof {
                lemma_through_complete(g, d, acc, w, t);
                assert(has_tile(m, t) <==> walk_passes(g, d, w, slot_tile(s as int)));
                let tt = slot_tile(s as int);
                assert(walk_count(g, d, upto, tt) == walk_count(g, d, done, tt) + if walk_passes(g, d, w, tt) {
                    1nat
                } else {
                    0nat
                });
            }
            if m & (1u16 << (s as u16)) != 0 {
                if counts[s] < u32::MAX {
                    counts[s] = counts[s] + 1;
                }
            }
            s += 1;
        }
        i += 1;
    }
    proof {
        assert(keys(common@).take(common@.len() as int) =~= keys(common@));
    }
    let mut coverage = [[0u32; 4]; 4];
    let mut s: usize = 0;
    while s < 16
        invariant
            0 <= s <= 16,
            counts@.len() == 16,
            forall|r: int, c: int|
                0 <= r < 4 && 0 <= c < 4 && r * 4 + c < s ==> #[trigger] coverage[r][c] == counts@[r * 4 + c],
        decreases 16 - s,
    {
        let r = s / 4;
        let c = s % 4;
        let ghost before = coverage;
        let mut row = coverage[r];
        row[c] = counts[s];
        coverage[r] = row;
        proof {
            assert forall|x: int, y: int| 0 <= x < 4 && 0 <= y < 4 && (x != r || y != c) implies coverage[x][y]
                == before[x][y] by {
                if x == r {
                    assert(coverage[x] == row);
                }
            }
        }
        s += 1;
    }
    let words = BoardWords { common: common_words, obscure, theme: Vec::new(), coverage };
    proof {
        let cw = bytes_of(words.common@);
        assert(cw == keys(common@));
        assert forall|w: Seq<u8>| #[trigger] cw.contains(w) <==> d.common().contains(w) && board_word(g, d, w) by {
            if cw.contains(w) {
                let i = choose|i: int| 0 <= i < cw.len() && cw[i] == w;
                assert(d.common().contains(keys(common@)[i]));
                let p = choose|p: Seq<Position>| #[trigger] acc.contains(p) && spelled(g, p) == w;
                assert(is_hit(g, d, p));
                assert(traces(g, w, None, p));
            }
            if d.common().contains(w) && board_word(g, d, w) {
                let p0 = choose|p: Seq<Position>| traces(g, w, None, p);
                lemma_walked_tracing(g, d, w, None, p0);
                let p = choose|p: Seq<Position>| traces(g, w, None, p) && walked(g, d, p);
                assert(is_hit(g, d, p));
                assert(acc.contains(p));
            }
        }
        let ow = bytes_of(words.obscure@);
        assert forall|w: Seq<u8>| #[trigger] ow.contains(w) <==> !d.common().contains(w) && board_word(g, d, w) by {
            if ow.contains(w) {
                let i = choose|i: int| 0 <= i < ow.len() && ow[i] == w;
                assert(!d.common().contains(ow[i]));
                let p = choose|p: Seq<Position>| #[trigger] acc.contains(p) && spelled(g, p) == w;
                assert(is_hit(g, d, p));
                assert(traces(g, w, None, p));
            }
            if !d.common().contains(w) && board_word(g, d, w) {
                let p0 = choose|p: Seq<Position>| traces(g, w, None, p);
                lemma_walked_tracing(g, d, w, None, p0);
                let p = choose|p: Seq<Position>| traces(g, w, None, p) && walked(g, d, p);
                assert(is_hit(g, d, p));
                assert(acc.contains(p));
            }
        }
        assert forall|r: int, c: int| 0 <= r < 4 && 0 <= c < 4 implies #[trigger] words.coverage[r][c] == capped(
            walk_count(g, d, cw, Position { row: r as usize, col: c as usize }),
        ) by {
            assert(slot_tile(r * 4 + c) == Position { row: r as usize, col: c as usize });
        }
    }
    words
}

} // verus!
