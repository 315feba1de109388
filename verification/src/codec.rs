//! The persisted list format.
//!
//! A store is saved one line per entry: the identifier in double quotes, a
//! separating space, then each tag followed by a single space:
//!
//! ```text
//! "holiday.png" beach sunset
//! "todo.txt"
//! ```
//!
//! (every line ends with one trailing space before the newline). Loading
//! locates the first two double quotes of each line, takes the text between
//! them as the identifier, skips one separating character after the second
//! quote, and splits the remainder on whitespace into the tag list. A line
//! without two quotes is a fatal format error. Identifiers must not contain
//! a double quote: the format has no escaping, so such an identifier cannot
//! round-trip.

use crate::text::{char_is_space, is_space};
use vstd::prelude::*;

verus! {

/// A malformed line in a persisted list: `line` is the index (from zero) of
/// the first line without the expected quote structure.
#[derive(Debug, PartialEq, Eq, Structural)]
pub struct FormatError {
    pub line: usize,
}

/// `line` with one trailing carriage return removed, as a line reader does.
pub open spec fn strip_cr(line: Seq<char>) -> Seq<char> {
    if line.len() > 0 && line.last() == '\r' {
        line.drop_last()
    } else {
        line
    }
}

/// The lines of the remaining input `s`, given the characters of the
/// current line read so far. Every newline ends a line (a trailing carriage
/// return is stripped); a non-empty final line without a newline counts.
pub open spec fn lines_from(s: Seq<char>, pending: Seq<char>) -> Seq<Seq<char>>
    decreases s.len(),
{
    if s.len() == 0 {
        if pending.len() == 0 {
            Seq::empty()
        } else {
            seq![pending]
        }
    } else if s[0] == '\n' {
        seq![strip_cr(pending)] + lines_from(s.drop_first(), Seq::empty())
    } else {
        lines_from(s.drop_first(), pending.push(s[0]))
    }
}

/// The lines of a whole file.
pub open spec fn spec_lines(s: Seq<char>) -> Seq<Seq<char>> {
    lines_from(s, Seq::empty())
}

/// The first position in `s` at or after `from` holding `c`, or `s.len()`
/// if there is none.
pub open spec fn find_from(s: Seq<char>, c: char, from: int) -> int
    decreases s.len() - from,
{
    if from < 0 || from >= s.len() {
        s.len() as int
    } else if s[from] == c {
        from
    } else {
        find_from(s, c, from + 1)
    }
}

/// The whitespace-separated words of the remaining input `s`, given the
/// characters of the current word read so far.
pub open spec fn words_from(s: Seq<char>, pending: Seq<char>) -> Seq<Seq<char>>
    decreases s.len(),
{
    if s.len() == 0 {
        if pending.len() == 0 {
            Seq::empty()
        } else {
            seq![pending]
        }
    } else if is_space(s[0]) {
        if pending.len() == 0 {
            words_from(s.drop_first(), pending)
        } else {
            seq![pending] + words_from(s.drop_first(), Seq::empty())
        }
    } else {
        words_from(s.drop_first(), pending.push(s[0]))
    }
}

/// The whitespace-separated words of `s`.
pub open spec fn spec_words(s: Seq<char>) -> Seq<Seq<char>> {
    words_from(s, Seq::empty())
}

/// What one persisted line denotes: the identifier between the first two
/// double quotes and the tags split from the text after the second quote
/// and the one separating character behind it; or nothing, when the line
/// has no two quotes.
pub open spec fn parse_line(line: Seq<char>) -> Option<(Seq<char>, Seq<Seq<char>>)> {
    let q1 = find_from(line, '"', 0);
    if q1 == line.len() {
        None
    } else {
        let q2 = find_from(line, '"', q1 + 1);
        if q2 == line.len() {
            None
        } else {
            let start = if q2 + 2 <= line.len() {
                q2 + 2
            } else {
                line.len() as int
            };
            Some((line.subrange(q1 + 1, q2), spec_words(line.skip(start))))
        }
    }
}

/// The first position of `c` in `s` at or after `from`, by linear scan.
fn find_char(s: &str, c: char, from: usize) -> (r: usize)
    requires
        from <= s@.len(),
    ensures
        r == find_from(s@, c, from as int),
        from <= r <= s@.len(),
        r < s@.len() ==> s@[r as int] == c,
    {
    let n = s.unicode_len();
    let mut i: usize = from;
    while i < n
        invariant
            from <= i <= n,
            n == s@.len(),
            find_from(s@, c, from as int) == find_from(s@, c, i as int),
        decreases n - i,
    {
        if s.get_char(i) == c {
            return i;
        }
        i = i + 1;
    }
    n
}

/// Splits `s` into whitespace-separated words, as [`spec_words`] describes.
fn split_words(s: &str) -> (r: Vec<String>)
    ensures
        r.deep_view() == spec_words(s@),
{
    let n = s.unicode_len();
    let mut out: Vec<String> = Vec::new();
    let mut start: usize = 0;
    let mut i: usize = 0;
    proof {
        assert(s@.skip(0int) =~= s@);
        assert(s@.subrange(0int, 0int) =~= Seq::<char>::empty());
        assert(out.deep_view() =~= Seq::<Seq<char>>::empty());
    }
    while i < n
        invariant
            start <= i <= n,
            n == s@.len(),
            forall|j: int| start <= j < i ==> !is_space(s@[j]),
            spec_words(s@) == out.deep_view() + words_from(s@.skip(i as int), s@.subrange(start as int, i as int)),
        decreases n - i,
    {
        let c = s.get_char(i);
        let ghost out0 = out.deep_view();
        let ghost pending = s@.subrange(start as int, i as int);
        proof {
            assert(s@.skip(i as int)[0] == c);
            assert(s@.skip(i as int).drop_first() =~= s@.skip(i as int + 1));
        }
        if char_is_space(c) {
            if start < i {
                let w = s.substring_char(start, i).to_owned();
                out.push(w);
                proof {
                    assert(out.deep_view() =~= out0.push(pending));
                    assert(out0 + (seq![pending] + words_from(s@.skip(i as int + 1), Seq::empty()))
                        =~= out.deep_view() + words_from(s@.skip(i as int + 1), Seq::empty()));
                }
            }
            start = i + 1;
            proof {
                assert(s@.subrange(start as int, i as int + 1) =~= Seq::<char>::empty());
                assert(pending.len() == 0 ==> pending =~= Seq::<char>::empty());
            }
        } else {
            proof {
                assert(s@.subrange(start as int, i as int + 1) =~= pending.push(c));
            }
        }
        i = i + 1;
    }
    proof {
        assert(s@.skip(i as int) =~= Seq::<char>::empty());
    }
    if start < n {
        let ghost out0 = out.deep_view();
        let ghost pending = s@.subrange(start as int, n as int);
        let w = s.substring_char(start, n).to_owned();
        out.push(w);
        proof {
            assert(out.deep_view() =~= out0.push(pending));
            assert(out0 + seq![pending] =~= out.deep_view());
        }
    } else {
        proof {
            assert(out.deep_view() + Seq::<Seq<char>>::empty() =~= out.deep_view());
        }
    }
    out
}

/// Parses one persisted line, as [`parse_line`] describes.
pub fn parse_line_exec(line: &str) -> (r: Option<(String, Vec<String>)>)
    ensures
        r is Some <==> parse_line(line@) is Some,
        r matches Some(p) ==> parse_line(line@) == Some((p.0@, p.1.deep_view())),
{
    let n = line.unicode_len();
    let q1 = find_char(line, '"', 0);
    if q1 == n {
        return None;
    }
    let q2 = find_char(line, '"', q1 + 1);
    if q2 == n {
        return None;
    }
    let id = line.substring_char(q1 + 1, q2).to_owned();
    let start = if n - q2 >= 2 {
        q2 + 2
    } else {
        n
    };
    let rest = line.substring_char(start, n);
    let tags = split_words(rest);
    proof {
        assert(rest@ =~= line@.skip(start as int));
    }
    Some((id, tags))
}

/// Splits a file's text into lines, as [`spec_lines`] describes.
pub fn split_lines(s: &str) -> (r: Vec<String>)
    ensures
        r.deep_view() == spec_lines(s@),
{
    let n = s.unicode_len();
    let mut out: Vec<String> = Vec::new();
    let mut start: usize = 0;
    let mut i: usize = 0;
    proof {
        assert(s@.skip(0int) =~= s@);
        assert(s@.subrange(0int, 0int) =~= Seq::<char>::empty());
        assert(out.deep_view() =~= Seq::<Seq<char>>::empty());
    }
    while i < n
        invariant
            start <= i <= n,
            n == s@.len(),
            forall|j: int| start <= j < i ==> s@[j] != '\n',
            spec_lines(s@) == out.deep_view() + lines_from(
                s@.skip(i as int),
                s@.subrange(start as int, i as int),
            ),
        decreases n - i,
    {
        let c = s.get_char(i);
        let ghost out0 = out.deep_view();
        let ghost pending = s@.subrange(start as int, i as int);
        proof {
            assert(s@.skip(i as int)[0] == c);
            assert(s@.skip(i as int).drop_first() =~= s@.skip(i as int + 1));
        }
        if c == '\n' {
            let end = if start < i && s.get_char(i - 1) == '\r' {
                i - 1
            } else {
                i
            };
            let line = s.substring_char(start, end).to_owned();
            proof {
                if start < i && s@[i as int - 1] == '\r' {
                    assert(pending.last() == '\r');
                    assert(line@ =~= strip_cr(pending));
                } else {
                    assert(line@ =~= strip_cr(pending));
                }
            }
            out.push(line);
            start = i + 1;
            proof {
                assert(out.deep_view() =~= out0.push(strip_cr(pending)));
                assert(out0 + (seq![strip_cr(pending)] + lines_from(
                    s@.skip(i as int + 1),
                    Seq::empty(),
                )) =~= out.deep_view() + lines_from(s@.skip(i as int + 1), Seq::empty()));
                assert(s@.subrange(start as int, i as int + 1) =~= Seq::<char>::empty());
            }
        } else {
            proof {
                assert(s@.subrange(start as int, i as int + 1) =~= pending.push(c));
            }
        }
        i = i + 1;
    }
    proof {
        assert(s@.skip(i as int) =~= Seq::<char>::empty());
    }
    if start < n {
        let ghost out0 = out.deep_view();
        let ghost pending = s@.subrange(start as int, n as int);
        let line = s.substring_char(start, n).to_owned();
        out.push(line);
        proof {
            assert(out.deep_view() =~= out0.push(pending));
            assert(out0 + seq![pending] =~= out.deep_view());
        }
    } else {
        proof {
            assert(out.deep_view() + Seq::<Seq<char>>::empty() =~= out.deep_view());
        }
    }
    out
}

/// Every line has the expected quote structure.
pub open spec fn all_lines_ok(lines: Seq<Seq<char>>) -> bool {
    forall|i: int| 0 <= i < lines.len() ==> (#[trigger] parse_line(lines[i])) is Some
}

/// The entry each line denotes (meaningful only when the line parses).
pub open spec fn parsed_lines(lines: Seq<Seq<char>>) -> Seq<(Seq<char>, Seq<Seq<char>>)> {
    lines.map_values(|l: Seq<char>| parse_line(l)->Some_0)
}

/// `entries` with `(id, tags)` inserted: an existing entry named `id` keeps
/// its position and receives the new tag list, a new entry goes at the end.
pub open spec fn insert_entry(
    entries: Seq<(Seq<char>, Seq<Seq<char>>)>,
    id: Seq<char>,
    tags: Seq<Seq<char>>,
) -> Seq<(Seq<char>, Seq<Seq<char>>)>
    decreases entries.len(),
{
    if entries.len() == 0 {
        seq![(id, tags)]
    } else if entries[0].0 == id {
        seq![(id, tags)] + entries.drop_first()
    } else {
        seq![entries[0]] + insert_entry(entries.drop_first(), id, tags)
    }
}

/// `items` inserted into `acc` one after the other, first item first.
pub open spec fn fold_insert(
    acc: Seq<(Seq<char>, Seq<Seq<char>>)>,
    items: Seq<(Seq<char>, Seq<Seq<char>>)>,
) -> Seq<(Seq<char>, Seq<Seq<char>>)>
    decreases items.len(),
{
    if items.len() == 0 {
        acc
    } else {
        fold_insert(insert_entry(acc, items[0].0, items[0].1), items.drop_first())
    }
}

/// The store a persisted file denotes: every line parsed and inserted into
/// an initially empty store, in file order; or nothing, when some line is
/// malformed.
pub open spec fn load_model(s: Seq<char>) -> Option<Seq<(Seq<char>, Seq<Seq<char>>)>> {
    let lines = spec_lines(s);
    if all_lines_ok(lines) {
        Some(fold_insert(Seq::empty(), parsed_lines(lines)))
    } else {
        None
    }
}

/// Inserting a fresh identifier appends the entry at the end.
pub proof fn lemma_insert_entry_fresh(
    entries: Seq<(Seq<char>, Seq<Seq<char>>)>,
    id: Seq<char>,
    tags: Seq<Seq<char>>,
)
    requires
        !crate::tagmap::has_entry_id(entries, id),
    ensures
        insert_entry(entries, id, tags) == entries.push((id, tags)),
    decreases entries.len(),
{
    if entries.len() == 0 {
        assert(insert_entry(entries, id, tags) =~= entries.push((id, tags)));
    } else {
        assert(entries[0].0 != id);
        assert(!crate::tagmap::has_entry_id(entries.drop_first(), id)) by {
            if crate::tagmap::has_entry_id(entries.drop_first(), id) {
                let i = choose|i: int|
                    0 <= i < entries.drop_first().len() && (#[trigger] entries.drop_first()[i]).0
                        == id;
                assert(entries[i + 1].0 == id);
            }
        }
        lemma_insert_entry_fresh(entries.drop_first(), id, tags);
        assert(insert_entry(entries, id, tags) =~= entries.push((id, tags)));
    }
}

/// Inserting an identifier that entry `i` already carries updates that
/// entry in place.
pub proof fn lemma_insert_entry_update(
    entries: Seq<(Seq<char>, Seq<Seq<char>>)>,
    id: Seq<char>,
    tags: Seq<Seq<char>>,
    i: int,
)
    requires
        crate::tagmap::unique_ids(entries),
        0 <= i < entries.len(),
        entries[i].0 == id,
    ensures
        insert_entry(entries, id, tags) == entries.update(i, (id, tags)),
    decreases i,
{
    if i == 0 {
        assert(insert_entry(entries, id, tags) =~= entries.update(0, (id, tags)));
    } else {
        assert(entries[0].0 != id);
        assert(crate::tagmap::unique_ids(entries.drop_first())) by {
            let rest = entries.drop_first();
            assert forall|p: int, q: int|
                0 <= p < q < rest.len() implies (#[trigger] rest[p]).0 != (#[trigger] rest[q]).0 by {
                assert(rest[p] == entries[p + 1]);
                assert(rest[q] == entries[q + 1]);
            }
        }
        assert(entries.drop_first()[i - 1].0 == id);
        lemma_insert_entry_update(entries.drop_first(), id, tags, i - 1);
        assert(insert_entry(entries, id, tags) =~= entries.update(i, (id, tags)));
    }
}

/// Folding one more item equals inserting it into the folded store.
pub proof fn lemma_fold_insert_snoc(
    acc: Seq<(Seq<char>, Seq<Seq<char>>)>,
    items: Seq<(Seq<char>, Seq<Seq<char>>)>,
    x: (Seq<char>, Seq<Seq<char>>),
)
    ensures
        fold_insert(acc, items.push(x)) == insert_entry(fold_insert(acc, items), x.0, x.1),
    decreases items.len(),
{
    if items.len() == 0 {
        assert(items.push(x)[0] == x);
        assert(items.push(x).drop_first() =~= Seq::<(Seq<char>, Seq<Seq<char>>)>::empty());
        assert(fold_insert(insert_entry(acc, x.0, x.1), Seq::empty()) == insert_entry(
            acc,
            x.0,
            x.1,
        ));
    } else {
        assert(items.push(x)[0] == items[0]);
        assert(items.push(x).drop_first() =~= items.drop_first().push(x));
        lemma_fold_insert_snoc(insert_entry(acc, items[0].0, items[0].1), items.drop_first(), x);
    }
}

/// The characters of the tags of `tags` from index `j` on, each followed by
/// one space.
pub open spec fn encode_tags_from(tags: Seq<Seq<char>>, j: int) -> Seq<char>
    decreases tags.len() - j,
{
    if j < 0 || j >= tags.len() {
        Seq::empty()
    } else {
        tags[j] + seq![' '] + encode_tags_from(tags, j + 1)
    }
}

/// One persisted line, without its newline: the quoted identifier, one
/// space, then each tag followed by one space.
pub open spec fn encode_entry(id: Seq<char>, tags: Seq<Seq<char>>) -> Seq<char> {
    seq!['"'] + id + seq!['"', ' '] + encode_tags_from(tags, 0)
}

/// The persisted text of the entries from index `i` on, one line each.
pub open spec fn encode_from(entries: Seq<(Seq<char>, Seq<Seq<char>>)>, i: int) -> Seq<char>
    decreases entries.len() - i,
{
    if i < 0 || i >= entries.len() {
        Seq::empty()
    } else {
        encode_entry(entries[i].0, entries[i].1) + seq!['\n'] + encode_from(entries, i + 1)
    }
}

/// The persisted text of a whole store.
pub open spec fn encode_store(entries: Seq<(Seq<char>, Seq<Seq<char>>)>) -> Seq<char> {
    encode_from(entries, 0)
}

/// An identifier the format can persist: free of double quotes (the
/// format's delimiter) and of newlines (the line separator).
pub open spec fn persistable_id(id: Seq<char>) -> bool {
    forall|j: int| 0 <= j < id.len() ==> id[j] != '"' && id[j] != '\n'
}

/// A tag the format can persist: non-empty and free of whitespace (the tag
/// separator).
pub open spec fn persistable_tag(t: Seq<char>) -> bool {
    t.len() > 0 && (forall|j: int| 0 <= j < t.len() ==> !is_space(#[trigger] t[j]))
}

/// An entry the format can persist.
pub open spec fn persistable_entry(e: (Seq<char>, Seq<Seq<char>>)) -> bool {
    persistable_id(e.0) && (forall|k: int| 0 <= k < e.1.len() ==> persistable_tag(#[trigger] e.1[k]))
}

/// A store every part of which the format can persist.
pub open spec fn persistable(entries: Seq<(Seq<char>, Seq<Seq<char>>)>) -> bool {
    forall|i: int| 0 <= i < entries.len() ==> persistable_entry(#[trigger] entries[i])
}

/// Reading lines through text without newlines only grows the pending line.
proof fn lemma_lines_from_append(t: Seq<char>, s: Seq<char>, pending: Seq<char>)
    requires
        forall|j: int| 0 <= j < t.len() ==> t[j] != '\n',
    ensures
        lines_from(t + s, pending) == lines_from(s, pending + t),
    decreases t.len(),
{
    if t.len() == 0 {
        assert(t + s =~= s);
        assert(pending + t =~= pending);
    } else {
        assert((t + s)[0] == t[0]);
        assert((t + s).drop_first() =~= t.drop_first() + s);
        lemma_lines_from_append(t.drop_first(), s, pending.push(t[0]));
        assert(pending.push(t[0]) + t.drop_first() =~= pending + t);
    }
}

/// Reading words through text without whitespace only grows the pending
/// word.
proof fn lemma_words_from_append(t: Seq<char>, s: Seq<char>, pending: Seq<char>)
    requires
        forall|j: int| 0 <= j < t.len() ==> !is_space(#[trigger] t[j]),
    ensures
        words_from(t + s, pending) == words_from(s, pending + t),
    decreases t.len(),
{
    if t.len() == 0 {
        assert(t + s =~= s);
        assert(pending + t =~= pending);
    } else {
        assert((t + s)[0] == t[0]);
        assert((t + s).drop_first() =~= t.drop_first() + s);
        lemma_words_from_append(t.drop_first(), s, pending.push(t[0]));
        assert(pending.push(t[0]) + t.drop_first() =~= pending + t);
    }
}

/// `find_from` lands on `at` when nothing before it matches and `at` does
/// (or runs to the end when nothing matches at all).
proof fn lemma_find_from_at(s: Seq<char>, c: char, from: int, at: int)
    requires
        0 <= from <= at <= s.len(),
        forall|j: int| from <= j < at ==> s[j] != c,
        at < s.len() ==> s[at] == c,
    ensures
        at < s.len() ==> find_from(s, c, from) == at,
        at == s.len() ==> find_from(s, c, from) == s.len(),
    decreases at - from,
{
    if from < at {
        lemma_find_from_at(s, c, from + 1, at);
    }
}

/// The words of encoded tags are the tags themselves, from index `j` on.
proof fn lemma_words_of_encoded_tags(tags: Seq<Seq<char>>, j: int)
    requires
        0 <= j <= tags.len(),
        forall|k: int| 0 <= k < tags.len() ==> persistable_tag(#[trigger] tags[k]),
    ensures
        words_from(encode_tags_from(tags, j), Seq::empty()) == tags.skip(j),
    decreases tags.len() - j,
{
    if j == tags.len() {
        assert(tags.skip(j) =~= Seq::<Seq<char>>::empty());
    } else {
        let rest = seq![' '] + encode_tags_from(tags, j + 1);
        assert(tags[j] + seq![' '] + encode_tags_from(tags, j + 1) =~= tags[j] + rest);
        lemma_words_from_append(tags[j], rest, Seq::empty());
        assert(Seq::<char>::empty() + tags[j] =~= tags[j]);
        assert(rest[0] == ' ');
        assert(rest.drop_first() =~= encode_tags_from(tags, j + 1));
        lemma_words_of_encoded_tags(tags, j + 1);
        assert(seq![tags[j]] + tags.skip(j + 1) =~= tags.skip(j));
    }
}

/// A persisted line parses back to the entry it encodes.
proof fn lemma_parse_encode_entry(id: Seq<char>, tags: Seq<Seq<char>>)
    requires
        persistable_entry((id, tags)),
    ensures
        parse_line(encode_entry(id, tags)) == Some((id, tags)),
{
    let line = encode_entry(id, tags);
    let enc = encode_tags_from(tags, 0);
    assert(forall|k: int| 0 <= k < tags.len() ==> persistable_tag(#[trigger] tags[k])) by {
        assert(((id, tags)).1 == tags);
    }
    assert(line.len() == id.len() + 3 + enc.len());
    assert(line[0] == '"');
    lemma_find_from_at(line, '"', 0, 0);
    let q2 = id.len() as int + 1;
    assert(forall|j: int| 1 <= j < q2 ==> line[j] == id[j - 1] && line[j] != '"');
    assert(line[q2] == '"');
    lemma_find_from_at(line, '"', 1, q2);
    assert(line.subrange(1, q2) =~= id);
    assert(q2 + 2 <= line.len());
    assert(line.skip(q2 + 2) =~= enc);
    lemma_words_of_encoded_tags(tags, 0);
    assert(tags.skip(0) =~= tags);
}

/// No character of encoded tags is a newline.
proof fn lemma_encode_tags_no_newline(tags: Seq<Seq<char>>, j: int)
    requires
        0 <= j <= tags.len(),
        forall|k: int| 0 <= k < tags.len() ==> persistable_tag(#[trigger] tags[k]),
    ensures
        forall|p: int|
            0 <= p < encode_tags_from(tags, j).len() ==> encode_tags_from(tags, j)[p] != '\n',
    decreases tags.len() - j,
{
    if j < tags.len() {
        lemma_encode_tags_no_newline(tags, j + 1);
        assert forall|p: int|
            0 <= p < encode_tags_from(tags, j).len() implies encode_tags_from(tags, j)[p]
            != '\n' by {
            let t = tags[j];
            if p < t.len() {
                assert(!is_space(t[p]));
            } else if p == t.len() {
            } else {
                assert(encode_tags_from(tags, j)[p] == encode_tags_from(tags, j + 1)[p - t.len()
                    - 1]);
            }
        }
    }
}

/// A persisted line contains no newline and does not end in a carriage
/// return.
proof fn lemma_encode_entry_line_shape(id: Seq<char>, tags: Seq<Seq<char>>)
    requires
        persistable_entry((id, tags)),
    ensures
        forall|p: int| 0 <= p < encode_entry(id, tags).len() ==> encode_entry(id, tags)[p] != '\n',
        strip_cr(encode_entry(id, tags)) == encode_entry(id, tags),
{
    let line = encode_entry(id, tags);
    let enc = encode_tags_from(tags, 0);
    assert(forall|k: int| 0 <= k < tags.len() ==> persistable_tag(#[trigger] tags[k])) by {
        assert(((id, tags)).1 == tags);
    }
    lemma_encode_tags_no_newline(tags, 0);
    assert forall|p: int| 0 <= p < line.len() implies line[p] != '\n' by {
        if 1 <= p < id.len() + 1 {
            assert(line[p] == id[p - 1]);
        } else if p >= id.len() + 3 {
            assert(line[p] == enc[p - id.len() - 3]);
        }
    }
    if enc.len() == 0 {
        assert(line.last() == ' ');
    } else {
        assert(line.last() == enc.last());
        assert(enc.last() != '\n');
        lemma_encode_tags_last(tags, 0);
    }
    assert(line.last() != '\r');
}

/// Encoded tags, when non-empty, end with the trailing space.
proof fn lemma_encode_tags_last(tags: Seq<Seq<char>>, j: int)
    requires
        0 <= j <= tags.len(),
    ensures
        encode_tags_from(tags, j).len() > 0 ==> encode_tags_from(tags, j).last() == ' ',
    decreases tags.len() - j,
{
    if j < tags.len() {
        lemma_encode_tags_last(tags, j + 1);
        let enc = encode_tags_from(tags, j);
        let rest = encode_tags_from(tags, j + 1);
        if rest.len() == 0 {
            assert(enc.last() == ' ');
        } else {
            assert(enc.last() == rest.last());
        }
    }
}

/// The lines of an encoded store are exactly the encoded lines of its
/// entries, from index `i` on.
proof fn lemma_lines_of_encoded(entries: Seq<(Seq<char>, Seq<Seq<char>>)>, i: int)
    requires
        0 <= i <= entries.len(),
        persistable(entries),
    ensures
        lines_from(encode_from(entries, i), Seq::empty()) == entries.skip(i).map_values(
            |e: (Seq<char>, Seq<Seq<char>>)| encode_entry(e.0, e.1),
        ),
    decreases entries.len() - i,
{
    let f = |e: (Seq<char>, Seq<Seq<char>>)| encode_entry(e.0, e.1);
    if i == entries.len() {
        assert(entries.skip(i) =~= Seq::<(Seq<char>, Seq<Seq<char>>)>::empty());
        assert(lines_from(encode_from(entries, i), Seq::empty()) =~= entries.skip(i).map_values(f));
    } else {
        let e = entries[i];
        assert(persistable_entry(e));
        let line = encode_entry(e.0, e.1);
        let rest = seq!['\n'] + encode_from(entries, i + 1);
        assert(encode_from(entries, i) =~= line + rest);
        lemma_encode_entry_line_shape(e.0, e.1);
        lemma_lines_from_append(line, rest, Seq::empty());
        assert(Seq::<char>::empty() + line =~= line);
        assert(rest[0] == '\n');
        assert(rest.drop_first() =~= encode_from(entries, i + 1));
        lemma_lines_of_encoded(entries, i + 1);
        assert(seq![line] + entries.skip(i + 1).map_values(f) =~= entries.skip(i).map_values(f));
    }
}

/// Folding entries with pairwise distinct identifiers into an empty store
/// reproduces them unchanged.
proof fn lemma_fold_insert_unique(items: Seq<(Seq<char>, Seq<Seq<char>>)>)
    requires
        crate::tagmap::unique_ids(items),
    ensures
        fold_insert(Seq::empty(), items) == items,
    decreases items.len(),
{
    if items.len() == 0 {
        assert(fold_insert(Seq::empty(), items) =~= items);
    } else {
        let front = items.drop_last();
        let x = items.last();
        assert(crate::tagmap::unique_ids(front)) by {
            assert(forall|p: int| 0 <= p < front.len() ==> front[p] == items[p]);
        }
        lemma_fold_insert_unique(front);
        assert(items =~= front.push(x));
        lemma_fold_insert_snoc(Seq::empty(), front, x);
        assert(!crate::tagmap::has_entry_id(front, x.0)) by {
            if crate::tagmap::has_entry_id(front, x.0) {
                let w = choose|w: int| 0 <= w < front.len() && (#[trigger] front[w]).0 == x.0;
                assert(items[w].0 == items[items.len() - 1].0);
            }
        }
        lemma_insert_entry_fresh(front, x.0, x.1);
        assert(x == (x.0, x.1));
        assert(fold_insert(Seq::empty(), items) == front.push(x));
    }
}

/// Saving and loading round-trips: a store whose identifiers avoid the
/// quote and newline characters and whose tags are non-empty and free of
/// whitespace is reproduced exactly, same identifiers, same tag order.
pub proof fn lemma_save_load_round_trip(entries: Seq<(Seq<char>, Seq<Seq<char>>)>)
    requires
        crate::tagmap::unique_ids(entries),
        persistable(entries),
    ensures
        load_model(encode_store(entries)) == Some(entries),
{
    let f = |e: (Seq<char>, Seq<Seq<char>>)| encode_entry(e.0, e.1);
    lemma_lines_of_encoded(entries, 0);
    assert(entries.skip(0) =~= entries);
    let lines = spec_lines(encode_store(entries));
    assert(lines == entries.map_values(f));
    assert forall|i: int| 0 <= i < lines.len() implies (#[trigger] parse_line(lines[i]))
        == Some(entries[i]) by {
        assert(persistable_entry(entries[i]));
        lemma_parse_encode_entry(entries[i].0, entries[i].1);
        assert(entries[i] == (entries[i].0, entries[i].1));
    }
    assert(all_lines_ok(lines));
    assert(parsed_lines(lines) =~= entries);
    lemma_fold_insert_unique(entries);
}

} // verus!
