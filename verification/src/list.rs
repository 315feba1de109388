//! An early, minimal form of the tag store, kept for compatibility. It
//! shares the persisted format and the directory scan of [`TagMap`], but its
//! own tag filtering was never implemented and always yields nothing; use
//! [`TagMap::entries_matching_tags`] instead.

use crate::tagmap::{with_missing_added, TagMap};
use vstd::prelude::*;

verus! {

/// The early store: identifiers with their ordered tag lists.
#[derive(Debug)]
pub struct List {
    store: TagMap,
}

impl View for List {
    type V = Seq<(Seq<char>, Seq<Seq<char>>)>;

    closed spec fn view(&self) -> Seq<(Seq<char>, Seq<Seq<char>>)> {
        self.store@
    }
}

impl List {
    /// The store's invariant: no identifier occurs twice.
    pub closed spec fn wf(&self) -> bool {
        self.store.wf()
    }

    /// An empty list.
    pub fn new() -> (r: List)
        ensures
            r@ == Seq::<(Seq<char>, Seq<Seq<char>>)>::empty(),
            r.wf(),
    {
        List { store: TagMap::new() }
    }

    /// Always returns an empty list: tag filtering for `List` was never
    /// implemented.
    #[allow(unused_variables)]
    pub fn entries_matching_tags(&self, tags: &[String]) -> (r: Vec<&str>)
        ensures
            r@.len() == 0,
    {
        Vec::new()
    }

    /// Parses persisted list text, as [`TagMap::from_list_string`] does.
    pub fn from_list_string(text: &str) -> (r: Result<List, crate::codec::FormatError>)
        ensures
            r is Ok <==> crate::codec::load_model(text@) is Some,
            r matches Ok(m) ==> m.wf() && Some(m@) == crate::codec::load_model(text@),
            r matches Err(e) ==> {
                let lines = crate::codec::spec_lines(text@);
                &&& e.line < lines.len()
                &&& crate::codec::parse_line(lines[e.line as int]) is None
                &&& forall|j: int|
                    0 <= j < e.line ==> (#[trigger] crate::codec::parse_line(lines[j])) is Some
            },
    {
        match TagMap::from_list_string(text) {
            Ok(map) => Ok(List { store: map }),
            Err(e) => Err(e),
        }
    }

    /// Renders the list in the persisted format, as
    /// [`TagMap::to_list_string`] does.
    pub fn to_list_string(&self) -> (r: String)
        ensures
            r@ == crate::codec::encode_store(self@),
    {
        self.store.to_list_string()
    }

    /// Adds an untagged entry for every listed name not present yet; this
    /// early form neither skips the list file itself nor removes anything.
    pub fn update_from_listing(&mut self, names: &Vec<String>)
        requires
            old(self).wf(),
        ensures
            final(self).wf(),
            final(self)@ == with_missing_added(old(self)@, names.deep_view(), 0),
    {
        self.store.add_missing(names);
    }
}

} // verus!