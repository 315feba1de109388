//! Prefix completion of tag names: given a line of input and a cursor
//! position, find the word being typed and offer every known tag that
//! starts with it.

use vstd::prelude::*;

verus! {

/// The position of the last plain space of `line`, or `-1` if it has none.
pub open spec fn last_space(line: Seq<char>) -> int
    decreases line.len(),
{
    if line.len() == 0 {
        -1
    } else if line.last() == ' ' {
        line.len() - 1
    } else {
        last_space(line.drop_last())
    }
}

/// Where the word under completion starts: one past the last plain space of
/// the whole line, or the start of the line. (Spaces after the cursor count
/// too, so the caller must check the start against the cursor.)
pub open spec fn word_start(line: Seq<char>) -> int {
    last_space(line) + 1
}

/// `w` is a prefix of `t`.
pub open spec fn is_prefix_of(w: Seq<char>, t: Seq<char>) -> bool {
    w.len() <= t.len() && t.take(w.len() as int) == w
}

/// Whether `w` is a prefix of `t`, character by character.
fn str_starts_with(t: &str, w: &str) -> (r: bool)
    ensures
        r == is_prefix_of(w@, t@),
{
    let wn = w.unicode_len();
    let tn = t.unicode_len();
    if wn > tn {
        return false;
    }
    let mut i: usize = 0;
    while i < wn
        invariant
            i <= wn,
            wn == w@.len(),
            tn == t@.len(),
            wn <= tn,
            forall|j: int| 0 <= j < i ==> w@[j] == t@[j],
        decreases wn - i,
    {
        if w.get_char(i) != t.get_char(i) {
            proof {
                if is_prefix_of(w@, t@) {
                    assert(t@.take(wn as int)[i as int] == w@[i as int]);
                }
            }
            return false;
        }
        i = i + 1;
    }
    proof {
        assert(t@.take(wn as int) =~= w@);
    }
    true
}

/// Completes tag names against a fixed catalogue of tags.
pub struct TagCompleter {
    tags: Vec<String>,
}

impl View for TagCompleter {
    type V = Seq<Seq<char>>;

    closed spec fn view(&self) -> Seq<Seq<char>> {
        self.tags.deep_view()
    }
}

impl TagCompleter {
    /// A completer over the given tags, offered in the given order.
    pub fn new(tags: Vec<String>) -> (r: TagCompleter)
        ensures
            r@ == tags.deep_view(),
    {
        TagCompleter { tags }
    }

    /// The completions for the word that ends at position `pos` of `line`:
    /// where that word starts, and every known tag it is a prefix of, in
    /// catalogue order. The word must lie before the cursor: a line whose
    /// last space stands at or past `pos` has no word to complete.
    pub fn complete(&self, line: &str, pos: usize) -> (r: (usize, Vec<String>))
        requires
            word_start(line@) <= pos <= line@.len(),
        ensures
            r.0 == word_start(line@),
            r.1.deep_view() == self@.filter(
                |t: Seq<char>| is_prefix_of(line@.subrange(word_start(line@), pos as int), t),
            ),
    {
        let n = line.unicode_len();
        let mut j: usize = n;
        proof {
            assert(line@.take(n as int) =~= line@);
        }
        while j > 0 && line.get_char(j - 1) != ' '
            invariant
                j <= n,
                n == line@.len(),
                last_space(line@) == last_space(line@.take(j as int)),
            decreases j,
        {
            proof {
                assert(line@.take(j as int).last() == line@[j as int - 1]);
                assert(line@.take(j as int).drop_last() =~= line@.take(j as int - 1));
            }
            j = j - 1;
        }
        let begin = j;
        proof {
            if j == 0 {
                assert(line@.take(0int) =~= Seq::<char>::empty());
            } else {
                assert(line@.take(j as int).last() == line@[j as int - 1]);
            }
            assert(begin as int == word_start(line@));
        }
        let word = line.substring_char(begin, pos);
        let ghost w = line@.subrange(word_start(line@), pos as int);
        let ghost p = |t: Seq<char>| is_prefix_of(w, t);
        let mut found: Vec<String> = Vec::new();
        let mut i: usize = 0;
        proof {
            assert(self@.take(0int) =~= Seq::<Seq<char>>::empty());
            assert(found.deep_view() =~= self@.take(0int).filter(p));
        }
        while i < self.tags.len()
            invariant
                i <= self@.len(),
                self@.len() == self.tags.len(),
                w == line@.subrange(word_start(line@), pos as int),
                word@ == w,
                p == (|t: Seq<char>| is_prefix_of(w, t)),
                found.deep_view() == self@.take(i as int).filter(p),
            decreases self.tags.len() - i,
        {
            let ghost found0 = found.deep_view();
            proof {
                assert(self@.take(i as int + 1) =~= self@.take(i as int).push(self@[i as int]));
                self@.take(i as int).lemma_filter_push(self@[i as int], p);
                assert(self@[i as int] == self.tags[i as int]@);
            }
            if str_starts_with(self.tags[i].as_str(), word) {
                found.push(self.tags[i].clone());
                proof {
                    assert(found.deep_view() =~= found0.push(self@[i as int]));
                }
            }
            i = i + 1;
        }
        proof {
            assert(self@.take(i as int) =~= self@);
        }
        (begin, found)
    }
}

} // verus!