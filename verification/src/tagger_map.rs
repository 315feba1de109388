//! The store wrapper driven by the command-line workflow: it owns a
//! [`TagMap`] and adds directory synchronization and the catalogue of all
//! tags in use.

use crate::tagmap::{sync_model, TagMap};
use crate::text::{lemma_lex_lt_connected, lemma_lex_lt_transitive, lex_lt};
use vstd::prelude::*;

verus! {

/// The strings are in strictly increasing lexicographic order (so also
/// pairwise distinct).
pub open spec fn sorted_strings(ss: Seq<Seq<char>>) -> bool {
    forall|i: int, j: int| 0 <= i < j < ss.len() ==> lex_lt(#[trigger] ss[i], #[trigger] ss[j])
}

/// Some entry of `entries` carries the tag `t`.
pub open spec fn store_has_tag(entries: Seq<(Seq<char>, Seq<Seq<char>>)>, t: Seq<char>) -> bool {
    exists|a: int, b: int|
        0 <= a < entries.len() && 0 <= b < entries[a].1.len() && #[trigger] entries[a].1[b] == t
}

/// The tags seen after scanning the first `i` entries whole and the first
/// `k` tags of entry `i`.
pub open spec fn tag_in_scan(
    entries: Seq<(Seq<char>, Seq<Seq<char>>)>,
    i: int,
    k: int,
    t: Seq<char>,
) -> bool {
    (exists|a: int, b: int|
        0 <= a < i && a < entries.len() && 0 <= b < entries[a].1.len() && #[trigger] entries[a].1[b]
            == t) || (exists|b: int|
        0 <= i < entries.len() && 0 <= b < k && b < entries[i].1.len() && #[trigger] entries[i].1[b]
            == t)
}

/// Inserts `t` into a strictly sorted list, keeping it sorted; a string
/// already present is left alone.
fn insert_sorted(out: &mut Vec<String>, t: &String)
    requires
        sorted_strings(old(out).deep_view()),
    ensures
        sorted_strings(final(out).deep_view()),
        forall|x: Seq<char>|
            #[trigger] final(out).deep_view().contains(x) <==> (old(out).deep_view().contains(x)
                || x == t@),
{
    let ghost dv0 = out.deep_view();
    let mut pos: usize = 0;
    while pos < out.len() && crate::text::str_lt(out[pos].as_str(), t.as_str())
        invariant
            pos <= out.len(),
            dv0 == out.deep_view(),
            forall|j: int| 0 <= j < pos ==> lex_lt(#[trigger] dv0[j], t@),
        decreases out.len() - pos,
    {
        proof {
            assert(dv0[pos as int] == out[pos as int]@);
        }
        pos = pos + 1;
    }
    if pos < out.len() && !crate::text::str_lt(t.as_str(), out[pos].as_str()) {
        proof {
            assert(dv0[pos as int] == out[pos as int]@);
            if t@ != dv0[pos as int] {
                lemma_lex_lt_connected(t@, dv0[pos as int]);
            }
            assert(dv0.contains(t@));
        }
        return ;
    }
    out.insert(pos, t.clone());
    proof {
        let nd = out.deep_view();
        assert(nd =~= dv0.insert(pos as int, t@));
        assert(pos < dv0.len() ==> lex_lt(t@, dv0[pos as int])) by {
            if pos < dv0.len() {
                assert(dv0[pos as int] == old(out)[pos as int]@);
            }
        }
        assert forall|i: int, j: int| 0 <= i < j < nd.len() implies lex_lt(
            #[trigger] nd[i],
            #[trigger] nd[j],
        ) by {
            if j < pos {
                assert(nd[i] == dv0[i] && nd[j] == dv0[j]);
            } else if i < pos && j == pos {
                assert(nd[i] == dv0[i] && nd[j] == t@);
            } else if i < pos && j > pos {
                assert(nd[i] == dv0[i] && nd[j] == dv0[j - 1]);
            } else if i == pos {
                assert(nd[i] == t@ && nd[j] == dv0[j - 1]);
                if j - 1 > pos {
                    lemma_lex_lt_transitive(t@, dv0[pos as int], dv0[j - 1]);
                }
            } else {
                assert(nd[i] == dv0[i - 1] && nd[j] == dv0[j - 1]);
            }
        }
        assert forall|x: Seq<char>| #[trigger] nd.contains(x) implies (dv0.contains(x) || x
            == t@) by {
            let w = choose|w: int| 0 <= w < nd.len() && nd[w] == x;
            if w < pos {
                assert(dv0[w] == x);
                assert(dv0.contains(x));
            } else if w > pos {
                assert(dv0[w - 1] == x);
                assert(dv0.contains(x));
            }
        }
        assert forall|x: Seq<char>| dv0.contains(x) || x == t@ implies #[trigger] nd.contains(
            x,
        ) by {
            if x == t@ {
                assert(nd[pos as int] == x);
            } else {
                let w = choose|w: int| 0 <= w < dv0.len() && dv0[w] == x;
                if w < pos {
                    assert(nd[w] == x);
                } else {
                    assert(nd[w + 1] == x);
                }
            }
        }
    }
}

/// The tag store as the command-line workflow sees it.
pub struct TaggerMap {
    pub tag_map: TagMap,
}

impl View for TaggerMap {
    type V = Seq<(Seq<char>, Seq<Seq<char>>)>;

    open spec fn view(&self) -> Seq<(Seq<char>, Seq<Seq<char>>)> {
        self.tag_map@
    }
}

impl Default for TaggerMap {
    fn default() -> (r: TaggerMap)
        ensures
            r@ == Seq::<(Seq<char>, Seq<Seq<char>>)>::empty(),
            r.wf(),
    {
        TaggerMap::new()
    }
}

impl TaggerMap {
    /// The wrapped store's invariant.
    pub open spec fn wf(&self) -> bool {
        self.tag_map.wf()
    }

    /// An empty tagger map.
    pub fn new() -> (r: TaggerMap)
        ensures
            r@ == Seq::<(Seq<char>, Seq<Seq<char>>)>::empty(),
            r.wf(),
    {
        TaggerMap { tag_map: TagMap::new() }
    }

    /// Parses persisted list text, as [`TagMap::from_list_string`] does.
    pub fn from_list_string(text: &str) -> (r: Result<TaggerMap, crate::codec::FormatError>)
        ensures
            r is Ok <==> crate::codec::load_model(text@) is Some,
            r matches Ok(m) ==> m.wf() && Some(m@) == crate::codec::load_model(text@),
            r matches Err(e) ==> {
                let lines = crate::codec::spec_lines(text@);
                &&& e.line < lines.len()
                &&& crate::codec::parse_line(lines[e.line as int]) is None
                &&& forall|j: int|
                    0 <= j < e.line ==> (#[trigger] crate::codec::parse_line(lines[j])) is Some
            },
    {
        match TagMap::from_list_string(text) {
            Ok(map) => Ok(TaggerMap { tag_map: map }),
            Err(e) => Err(e),
        }
    }

    /// Renders the store in the persisted list format, as
    /// [`TagMap::to_list_string`] does.
    pub fn to_list_string(&self) -> (r: String)
        ensures
            r@ == crate::codec::encode_store(self@),
    {
        self.tag_map.to_list_string()
    }

    /// Synchronizes against a directory listing, as
    /// [`TagMap::sync_with_listing`] does: new files become untagged
    /// entries (the reserved list file stays out), entries without a
    /// backing file disappear, and the count of added entries is returned.
    pub fn update_from_listing(&mut self, names: &Vec<String>, reserved: &str) -> (added: usize)
        requires
            old(self).wf(),
        ensures
            final(self).wf(),
            (final(self)@, added as nat) == sync_model(old(self)@, names.deep_view(), reserved@),
            forall|i: int|
                0 <= i < final(self)@.len() ==> names.deep_view().contains(
                    (#[trigger] final(self)@[i]).0,
                ),
    {
        self.tag_map.sync_with_listing(names, reserved)
    }

    /// Every distinct tag present in the store, in increasing lexicographic
    /// order.
    pub fn tags(&self) -> (r: Vec<String>)
        ensures
            sorted_strings(r.deep_view()),
            forall|x: Seq<char>| #[trigger] r.deep_view().contains(x) <==> store_has_tag(self@, x),
    {
        let mut out: Vec<String> = Vec::new();
        let n = self.tag_map.len();
        let mut i: usize = 0;
        proof {
            assert(out.deep_view() =~= Seq::<Seq<char>>::empty());
        }
        while i < n
            invariant
                i <= n,
                n == self@.len(),
                sorted_strings(out.deep_view()),
                forall|x: Seq<char>|
                    #[trigger] out.deep_view().contains(x) <==> tag_in_scan(self@, i as int, 0, x),
            decreases n - i,
        {
            let tags = self.tag_map.tags_at(i);
            let m = tags.len();
            let mut k: usize = 0;
            proof {
                assert(tags.deep_view() == self@[i as int].1);
            }
            while k < m
                invariant
                    k <= m,
                    i < n,
                    n == self@.len(),
                    m == self@[i as int].1.len(),
                    tags.deep_view() == self@[i as int].1,
                    sorted_strings(out.deep_view()),
                    forall|x: Seq<char>|
                        #[trigger] out.deep_view().contains(x) <==> tag_in_scan(
                            self@,
                            i as int,
                            k as int,
                            x,
                        ),
                decreases m - k,
            {
                let ghost before = out.deep_view();
                insert_sorted(&mut out, &tags[k]);
                proof {
                    assert(tags[k as int]@ == self@[i as int].1[k as int]);
                    assert forall|x: Seq<char>| #[trigger] out.deep_view().contains(x) <==>
                        tag_in_scan(self@, i as int, k as int + 1, x) by {
                        if out.deep_view().contains(x) {
                            if before.contains(x) {
                            } else {
                                assert(x == self@[i as int].1[k as int]);
                            }
                        }
                        if tag_in_scan(self@, i as int, k as int + 1, x) {
                            if tag_in_scan(self@, i as int, k as int, x) {
                            } else {
                                assert(x == self@[i as int].1[k as int]);
                            }
                        }
                    }
                }
                k = k + 1;
            }
            proof {
                assert forall|x: Seq<char>|
                    tag_in_scan(self@, i as int, m as int, x) <==> tag_in_scan(
                        self@,
                        i as int + 1,
                        0,
                        x,
                    ) by {
                    if tag_in_scan(self@, i as int, m as int, x) {
                        if exists|b: int|
                            0 <= b < m && b < self@[i as int].1.len() && #[trigger] self@[
                            i as int].1[b] == x {
                            let b = choose|b: int|
                                0 <= b < m && b < self@[i as int].1.len() && #[trigger] self@[
                                i as int].1[b] == x;
                            assert(self@[i as int].1[b] == x);
                        }
                    }
                }
            }
            i = i + 1;
        }
        proof {
            assert forall|x: Seq<char>|
                tag_in_scan(self@, n as int, 0, x) <==> store_has_tag(self@, x) by {}
        }
        out
    }
}

} // verus!