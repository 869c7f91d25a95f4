//! Board themes: categories of related words a board can be built around.
//!
//! A 4x4 grid does not hold enough words from one category by chance, so themed
//! boards are constructed: the words are planted first and the rest of the grid
//! is filled around them. A theme's list comes from a text of `[Name]` headers,
//! each followed by its words, one per line.

use vstd::prelude::*;
use vstd::string::StringSliceAdditionalSpecFns;
use crate::dictionary::{is_line, lowered, trimmed};
use crate::game::string_bytes;
use crate::solver::bytes_of;
use crate::text::{find_line_end, lemma_line_end, line_end, lines_from, lower_ascii, trimmed_line};

verus! {

/// Theme words have to be short enough that several fit on one board.
pub const MAX_THEME_WORD: usize = 6;
pub const MIN_THEME_WORD: usize = 3;

/// A category with fewer plantable words than this cannot seed a board.
pub const MIN_PLANTABLE: usize = 12;

pub struct Theme {
    pub name: String,
    /// Words short enough to plant on a board.
    pub plantable: Vec<String>,
    /// Every word in the category, for recognising them on a finished board.
    pub all: Vec<String>,
}

pub struct Themes {
    pub list: Vec<Theme>,
}

/// A theme as its lines give it: the name, the plantable words and all words.
pub type ThemeText = (Seq<u8>, Seq<Seq<u8>>, Seq<Seq<u8>>);

impl Theme {
    pub open spec fn text(&self) -> ThemeText {
        (string_bytes(self.name), bytes_of(self.plantable@), bytes_of(self.all@))
    }

    /// Whether `word` is one of the category's words.
    pub fn has_word(&self, word: &str) -> (found: bool)
        ensures
            found == bytes_of(self.all@).contains(word.spec_bytes()),
    {
        let w = word.as_bytes();
        let mut i: usize = 0;
        while i < self.all.len()
            invariant
                0 <= i <= self.all@.len(),
                w@ == word.spec_bytes(),
                forall|j: int| 0 <= j < i ==> bytes_of(self.all@)[j] != w@,
            decreases self.all@.len() - i,
        {
            if same_bytes(self.all[i].as_str().as_bytes(), w) {
                proof {
                    assert(bytes_of(self.all@)[i as int] == w@);
                }
                return true;
            }
            i += 1;
        }
        false
    }
}

/// Whether two byte strings are the same.
pub fn same_bytes(a: &[u8], b: &[u8]) -> (same: bool)
    ensures
        same == (a@ == b@),
{
    if a.len() != b.len() {
        return false;
    }
    let mut i: usize = 0;
    while i < a.len()
        invariant
            a@.len() == b@.len(),
            0 <= i <= a@.len(),
            forall|k: int| 0 <= k < i ==> a@[k] == b@[k],
        decreases a@.len() - i,
    {
        if a[i] != b[i] {
            return false;
        }
        i += 1;
    }
    proof {
        assert(a@ =~= b@);
    }
    true
}

/// A trimmed line that names a theme: `[Name]`.
pub open spec fn is_header(l: Seq<u8>) -> bool {
    l.len() >= 2 && l[0] == 91 && l[l.len() - 1] == 93
}

/// A trimmed line that says nothing: empty, or a `#` comment.
pub open spec fn is_blank(l: Seq<u8>) -> bool {
    l.len() == 0 || l[0] == 35
}

/// What one line does to the themes read so far: a header opens a new theme;
/// any other line adds a word, lower-cased, to the last theme opened.
pub open spec fn theme_step(themes: Seq<ThemeText>, line: Seq<u8>) -> Seq<ThemeText> {
    let l = trimmed(line);
    if is_blank(l) {
        themes
    } else if is_header(l) {
        themes.push((l.subrange(1, l.len() - 1), Seq::empty(), Seq::empty()))
    } else if themes.len() == 0 {
        themes
    } else {
        let w = lowered(l);
        let last = themes.last();
        let plantable = if MIN_THEME_WORD <= w.len() <= MAX_THEME_WORD {
            last.1.push(w)
        } else {
            last.1
        };
        themes.update(themes.len() - 1, (last.0, plantable, last.2.push(w)))
    }
}

/// The themes after reading `lines` on from `themes`.
pub open spec fn themes_after(themes: Seq<ThemeText>, lines: Seq<Seq<u8>>) -> Seq<ThemeText>
    decreases lines.len(),
{
    if lines.len() == 0 {
        themes
    } else {
        themes_after(theme_step(themes, lines[0]), lines.drop_first())
    }
}

/// The themes with enough plantable words to seed a board, in order.
pub open spec fn seeding(themes: Seq<ThemeText>) -> Seq<ThemeText>
    decreases themes.len(),
{
    if themes.len() == 0 {
        Seq::empty()
    } else {
        (if themes[0].1.len() >= MIN_PLANTABLE {
            seq![themes[0]]
        } else {
            Seq::empty()
        }) + seeding(themes.drop_first())
    }
}

/// The themes a text describes, leaving out those too small to seed a board.
pub open spec fn themes_in(text: Seq<u8>) -> Seq<ThemeText> {
    seeding(themes_after(Seq::empty(), lines_from(text, 0)))
}

/// The text between the brackets of a header.
fn header_name(line: &str) -> (name: &str)
    requires
        is_header(line.spec_bytes()),
    ensures
        name.spec_bytes() == line.spec_bytes().subrange(1, line.spec_bytes().len() - 1),
{
    let ghost b = line.spec_bytes();
    proof {
        vstd::utf8::encode_utf8_valid_utf8(line@);
        crate::text::lemma_boundary_at_lead(b, 0);
        crate::text::lemma_boundary_step(b, 0);
        assert(b.subrange(0, b.len() as int)[0] == 91);
    }
    let (_, rest) = line.split_at(1);
    let n = line.as_bytes().len();
    proof {
        assert(rest.spec_bytes() == b.subrange(1, b.len() as int));
        vstd::utf8::encode_utf8_valid_utf8(rest@);
        let r = rest.spec_bytes();
        assert(r[r.len() - 1] == 93);
        crate::text::lemma_boundary_at_lead(r, r.len() - 1);
    }
    let (name, _) = rest.split_at(n - 2);
    proof {
        assert(name.spec_bytes() =~= b.subrange(1, b.len() - 1));
    }
    name
}

impl Themes {
    /// Read the themes from their text: `[Name]` headers, each followed by its
    /// words one per line; blank lines and `#` comments are skipped. Only the
    /// themes with enough plantable words are kept.
    pub fn load(text: &str) -> (themes: Self)
        ensures
            themes.list@.map_values(|t: Theme| t.text()) == themes_in(text.spec_bytes()),
    {
        let t = text.as_bytes();
        let ghost tb = t@;
        let len = t.len();
        let mut list: Vec<Theme> = Vec::new();
        let mut start: usize = 0;
        proof {
            assert(list@.map_values(|t: Theme| t.text()) =~= Seq::<ThemeText>::empty());
        }
        let mut more = true;
        while more
            invariant
                tb == t@,
                tb == text.spec_bytes(),
                len == tb.len(),
                0 <= start <= len,
                start == 0 || tb[start - 1] == 10,
                more ==> themes_after(list@.map_values(|t: Theme| t.text()), lines_from(tb, start as int))
                    == themes_after(Seq::empty(), lines_from(tb, 0)),
                !more ==> list@.map_values(|t: Theme| t.text()) == themes_after(Seq::empty(), lines_from(tb, 0)),
            decreases (if more { len + 2 - start } else { 0 }),
        {
            let ghost before = list@.map_values(|t: Theme| t.text());
            let end = find_line_end(t, start);
            proof {
                lemma_line_end(tb, start as int);
                assert(lines_from(tb, start as int) == seq![tb.subrange(start as int, end as int)] + lines_from(
                    tb,
                    end + 1,
                ));
                assert((seq![tb.subrange(start as int, end as int)] + lines_from(tb, end + 1)).drop_first()
                    =~= lines_from(tb, end + 1));
            }
            let line = trimmed_line(text, start, end);
            let lb = line.as_bytes();
            let n = lb.len();
            let ghost after = theme_step(before, tb.subrange(start as int, end as int));
            proof {
                assert(lines_from(tb, start as int)[0] == tb.subrange(start as int, end as int));
                assert(themes_after(before, lines_from(tb, start as int)) == themes_after(
                    after,
                    lines_from(tb, end + 1),
                ));
            }
            if n == 0 || lb[0] == 35 {
            } else if n >= 2 && lb[0] == 91 && lb[n - 1] == 93 {
                let name = header_name(line);
                list.push(Theme { name: name.to_owned(), plantable: Vec::new(), all: Vec::new() });
                proof {
                    assert(bytes_of(Seq::<String>::empty()) =~= Seq::<Seq<u8>>::empty());
                    assert(list@.map_values(|t: Theme| t.text()) =~= after);
                }
            } else if list.len() > 0 {
                let word = lower_ascii(line);
                let mut last = list.pop().unwrap();
                let wn = word.as_str().as_bytes().len();
                if wn >= MIN_THEME_WORD && wn <= MAX_THEME_WORD {
                    last.plantable.push(word.clone());
                }
                last.all.push(word);
                list.push(last);
                proof {
                    assert(bytes_of(last.all@) =~= before.last().2.push(lowered(lb@)));
                    if MIN_THEME_WORD <= wn <= MAX_THEME_WORD {
                        assert(bytes_of(last.plantable@) =~= before.last().1.push(lowered(lb@)));
                    }
                    assert(list@.map_values(|t: Theme| t.text()) =~= after);
                }
            }
            proof {
                assert(list@.map_values(|t: Theme| t.text()) == after);
            }
            if end < len {
                start = end + 1;
            } else {
                proof {
                    assert(lines_from(tb, end + 1) =~= Seq::<Seq<u8>>::empty());
                    assert(themes_after(after, lines_from(tb, end + 1)) == after);
                }
                more = false;
            }
        }
        let ghost read = list@.map_values(|t: Theme| t.text());
        let mut kept: Vec<Theme> = Vec::new();
        proof {
            assert(kept@.map_values(|t: Theme| t.text()) + seeding(read) =~= seeding(read));
        }
        while list.len() > 0
            invariant
                read == themes_after(Seq::empty(), lines_from(tb, 0)),
                kept@.map_values(|t: Theme| t.text()) + seeding(list@.map_values(|t: Theme| t.text()))
                    == seeding(read),
            decreases list@.len(),
        {
            let ghost rest = list@.map_values(|t: Theme| t.text());
            let ghost done = kept@.map_values(|t: Theme| t.text());
            let theme = list.remove(0);
            proof {
                assert(list@.map_values(|t: Theme| t.text()) =~= rest.drop_first());
                assert(rest[0] == theme.text());
            }
            if theme.plantable.len() >= MIN_PLANTABLE {
                kept.push(theme);
                proof {
                    assert(kept@.map_values(|t: Theme| t.text()) =~= done.push(rest[0]));
                    assert(done + seeding(rest) =~= done.push(rest[0]) + seeding(rest.drop_first()));
                }
            } else {
                proof {
                    assert(seeding(rest) =~= seeding(rest.drop_first()));
                }
            }
        }
        proof {
            assert(seeding(list@.map_values(|t: Theme| t.text())) =~= Seq::<ThemeText>::empty());
            assert(kept@.map_values(|t: Theme| t.text()) + Seq::<ThemeText>::empty() =~= kept@.map_values(
                |t: Theme| t.text(),
            ));
        }
        Themes { list: kept }
    }
}

impl Themes {
    /// The theme of that name, if there is one: the first, should two share it.
    pub fn get(&self, name: &str) -> (found: Option<&Theme>)
        ensures
            match found {
                Some(t) => exists|i: int|
                    0 <= i < self.list@.len() && self.list@[i] == *t && string_bytes(t.name) == name.spec_bytes()
                        && forall|j: int| 0 <= j < i ==> string_bytes(#[trigger] self.list@[j].name) != name.spec_bytes(),
                None => forall|i: int|
                    0 <= i < self.list@.len() ==> string_bytes(#[trigger] self.list@[i].name) != name.spec_bytes(),
            },
    {
        let mut i: usize = 0;
        while i < self.list.len()
            invariant
                0 <= i <= self.list@.len(),
                forall|j: int| 0 <= j < i ==> string_bytes(#[trigger] self.list@[j].name) != name.spec_bytes(),
            decreases self.list@.len() - i,
        {
            if same_bytes(self.list[i].name.as_str().as_bytes(), name.as_bytes()) {
                return Some(&self.list[i]);
            }
            i += 1;
        }
        None
    }
}

} // verus!
