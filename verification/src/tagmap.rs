//! The tag store and the rule evaluator.
//!
//! A [`TagMap`] maps entry identifiers (file names) to ordered lists of tags.
//! A [`MatchRule`] is a small boolean predicate over an entry's tags, and
//! [`TagMap::matching`] evaluates one lazily over the whole store.

use vstd::prelude::*;

verus! {

/// A boolean predicate over an entry's tag list.
///
/// An entry satisfies `RequireAll(tags)` when every listed tag is present,
/// `ExcludeAny(tags)` when none is present, and `Conjunction(rules)` when
/// every sub-rule is satisfied.
#[derive(Debug)]
pub enum MatchRule {
    RequireAll(Vec<String>),
    ExcludeAny(Vec<String>),
    Conjunction(Vec<MatchRule>),
}

/// The mathematical shape of a [`MatchRule`]: every string replaced by its
/// character sequence.
pub enum RuleView {
    RequireAll(Seq<Seq<char>>),
    ExcludeAny(Seq<Seq<char>>),
    Conjunction(Seq<RuleView>),
}

/// The view of a rule, [`RuleView`], computed variant by variant.
pub open spec fn rule_view(r: MatchRule) -> RuleView
    decreases r, 1int,
{
    match r {
        MatchRule::RequireAll(ts) => RuleView::RequireAll(ts.deep_view()),
        MatchRule::ExcludeAny(ts) => RuleView::ExcludeAny(ts.deep_view()),
        MatchRule::Conjunction(rs) => RuleView::Conjunction(rules_view(rs, rs.len() as int)),
    }
}

/// The views of the first `n` rules of `rs`.
pub open spec fn rules_view(rs: Vec<MatchRule>, n: int) -> Seq<RuleView>
    decreases rs, n,
{
    if n <= 0 || n > rs.len() {
        Seq::empty()
    } else {
        rules_view(rs, n - 1).push(rule_view(rs[n - 1]))
    }
}

/// Every tag of `ts` occurs in `tags`.
pub open spec fn all_present(tags: Seq<Seq<char>>, ts: Seq<Seq<char>>) -> bool {
    forall|i: int| 0 <= i < ts.len() ==> tags.contains(#[trigger] ts[i])
}

/// No tag of `ts` occurs in `tags`.
pub open spec fn none_present(tags: Seq<Seq<char>>, ts: Seq<Seq<char>>) -> bool {
    forall|i: int| 0 <= i < ts.len() ==> !tags.contains(#[trigger] ts[i])
}

/// Whether a tag list satisfies a rule.
pub open spec fn rule_matches(tags: Seq<Seq<char>>, r: RuleView) -> bool
    decreases r, 1int,
{
    match r {
        RuleView::RequireAll(ts) => all_present(tags, ts),
        RuleView::ExcludeAny(ts) => none_present(tags, ts),
        RuleView::Conjunction(rs) => conj_matches(tags, rs, rs.len() as int),
    }
}

/// Whether a tag list satisfies the first `n` rules of a conjunction.
pub open spec fn conj_matches(tags: Seq<Seq<char>>, rs: Seq<RuleView>, n: int) -> bool
    decreases rs, n,
{
    if n <= 0 || n > rs.len() {
        true
    } else {
        conj_matches(tags, rs, n - 1) && rule_matches(tags, rs[n - 1])
    }
}

/// `rules_view(rs, n)` lists the views of `rs[0]`, ..., `rs[n - 1]` in order.
pub proof fn lemma_rules_view_index(rs: Vec<MatchRule>, n: int)
    requires
        0 <= n <= rs.len(),
    ensures
        rules_view(rs, n).len() == n,
        forall|j: int| 0 <= j < n ==> rules_view(rs, n)[j] == rule_view(rs[j]),
    decreases n,
{
    if n > 0 {
        lemma_rules_view_index(rs, n - 1);
    }
}

/// A conjunction prefix holds exactly when each of its rules holds.
pub proof fn lemma_conj_matches_index(tags: Seq<Seq<char>>, rs: Seq<RuleView>, n: int)
    requires
        0 <= n <= rs.len(),
    ensures
        conj_matches(tags, rs, n) <==> (forall|j: int|
            0 <= j < n ==> rule_matches(tags, #[trigger] rs[j])),
    decreases n,
{
    if n > 0 {
        lemma_conj_matches_index(tags, rs, n - 1);
    }
}

/// Whether `tags` holds `tag`, by linear search.
fn has_tag(tags: &Vec<String>, tag: &String) -> (b: bool)
    ensures
        b == tags.deep_view().contains(tag@),
{
    let mut i: usize = 0;
    while i < tags.len()
        invariant
            i <= tags.len(),
            forall|j: int| 0 <= j < i ==> tags.deep_view()[j] != tag@,
        decreases tags.len() - i,
    {
        if tags[i] == *tag {
            proof {
                assert(tags.deep_view()[i as int] == tag@);
            }
            return true;
        }
        i = i + 1;
    }
    false
}

impl MatchRule {
    /// Whether an entry with the given tag list satisfies this rule.
    pub fn matches(&self, tags: &Vec<String>) -> (b: bool)
        ensures
            b == rule_matches(tags.deep_view(), rule_view(*self)),
        decreases *self,
    {
        match self {
            MatchRule::RequireAll(ts) => {
                let mut i: usize = 0;
                while i < ts.len()
                    invariant
                        i <= ts.len(),
                        forall|j: int|
                            0 <= j < i ==> tags.deep_view().contains(#[trigger] ts.deep_view()[j]),
                    decreases ts.len() - i,
                {
                    if !has_tag(tags, &ts[i]) {
                        proof {
                            assert(ts.deep_view()[i as int] == ts[i as int]@);
                        }
                        return false;
                    }
                    i = i + 1;
                }
                true
            },
            MatchRule::ExcludeAny(ts) => {
                let mut i: usize = 0;
                while i < ts.len()
                    invariant
                        i <= ts.len(),
                        forall|j: int|
                            0 <= j < i ==> !tags.deep_view().contains(#[trigger] ts.deep_view()[j]),
                    decreases ts.len() - i,
                {
                    if has_tag(tags, &ts[i]) {
                        proof {
                            assert(ts.deep_view()[i as int] == ts[i as int]@);
                        }
                        return false;
                    }
                    i = i + 1;
                }
                true
            },
            MatchRule::Conjunction(rs) => {
                let ghost rvs = rules_view(*rs, rs.len() as int);
                proof {
                    lemma_rules_view_index(*rs, rs.len() as int);
                    lemma_conj_matches_index(tags.deep_view(), rvs, rs.len() as int);
                }
                let mut i: usize = 0;
                while i < rs.len()
                    invariant
                        i <= rs.len(),
                        rvs == rules_view(*rs, rs.len() as int),
                        rvs.len() == rs.len(),
                        forall|j: int| 0 <= j < rvs.len() ==> rvs[j] == rule_view(rs[j]),
                        forall|j: int|
                            0 <= j < i ==> rule_matches(tags.deep_view(), #[trigger] rvs[j]),
                    decreases rs.len() - i,
                {
                    proof {
                        assert(decreases_to!(*self => *rs));
                        assert(decreases_to!(*rs => rs[i as int]));
                    }
                    if !rs[i].matches(tags) {
                        proof {
                            assert(rvs[i as int] == rule_view(rs[i as int]));
                            lemma_conj_matches_index(tags.deep_view(), rvs, rvs.len() as int);
                        }
                        return false;
                    }
                    i = i + 1;
                }
                proof {
                    lemma_conj_matches_index(tags.deep_view(), rvs, rvs.len() as int);
                }
                true
            },
        }
    }
}

impl PartialEq for MatchRule {
    fn eq(&self, other: &MatchRule) -> (r: bool)
        decreases *self,
    {
        match (self, other) {
            (MatchRule::RequireAll(a), MatchRule::RequireAll(b)) => crate::text::vec_string_eq(
                a,
                b,
            ),
            (MatchRule::ExcludeAny(a), MatchRule::ExcludeAny(b)) => crate::text::vec_string_eq(
                a,
                b,
            ),
            (MatchRule::Conjunction(xs), MatchRule::Conjunction(ys)) => {
                proof {
                    lemma_rules_view_index(*xs, xs.len() as int);
                    lemma_rules_view_index(*ys, ys.len() as int);
                }
                if xs.len() != ys.len() {
                    return false;
                }
                let mut i: usize = 0;
                while i < xs.len()
                    invariant
                        i <= xs.len(),
                        xs.len() == ys.len(),
                        forall|j: int| 0 <= j < i ==> rule_view(xs[j]) == rule_view(ys[j]),
                    decreases xs.len() - i,
                {
                    proof {
                        assert(decreases_to!(*self => *xs));
                        assert(decreases_to!(*xs => xs[i as int]));
                    }
                    if !(xs[i] == ys[i]) {
                        proof {
                            assert(rules_view(*xs, xs.len() as int)[i as int] != rules_view(
                                *ys,
                                ys.len() as int,
                            )[i as int]);
                        }
                        return false;
                    }
                    i = i + 1;
                }
                proof {
                    assert(rules_view(*xs, xs.len() as int) =~= rules_view(*ys, ys.len() as int));
                }
                true
            },
            _ => false,
        }
    }
}

impl vstd::std_specs::cmp::PartialEqSpecImpl for MatchRule {
    open spec fn obeys_eq_spec() -> bool {
        true
    }

    open spec fn eq_spec(&self, other: &MatchRule) -> bool {
        rule_view(*self) == rule_view(*other)
    }
}

/// The identifiers of `entries` are pairwise distinct.
pub open spec fn unique_ids(entries: Seq<(Seq<char>, Seq<Seq<char>>)>) -> bool {
    forall|i: int, j: int|
        0 <= i < j < entries.len() ==> (#[trigger] entries[i]).0 != (#[trigger] entries[j]).0
}

/// Some entry of `entries` carries the identifier `id`.
pub open spec fn has_entry_id(entries: Seq<(Seq<char>, Seq<Seq<char>>)>, id: Seq<char>) -> bool {
    exists|i: int| 0 <= i < entries.len() && (#[trigger] entries[i]).0 == id
}

/// The tag store: entry identifiers, each with its ordered tag list.
///
/// Entries keep their insertion order, which makes iteration, matching and
/// persistence deterministic; identifiers are unique.
#[derive(Debug)]
pub struct TagMap {
    entries: Vec<(String, Vec<String>)>,
}

impl View for TagMap {
    type V = Seq<(Seq<char>, Seq<Seq<char>>)>;

    closed spec fn view(&self) -> Seq<(Seq<char>, Seq<Seq<char>>)> {
        self.entries.deep_view()
    }
}

impl TagMap {
    /// The store's invariant: no identifier occurs twice.
    pub open spec fn wf(&self) -> bool {
        unique_ids(self@)
    }

    /// An empty store.
    pub fn new() -> (r: TagMap)
        ensures
            r@ == Seq::<(Seq<char>, Seq<Seq<char>>)>::empty(),
            r.wf(),
    {
        let r = TagMap { entries: Vec::new() };
        proof {
            assert(r@ =~= Seq::<(Seq<char>, Seq<Seq<char>>)>::empty());
        }
        r
    }

    /// The number of entries.
    pub fn len(&self) -> (n: usize)
        ensures
            n == self@.len(),
    {
        self.entries.len()
    }

    /// The identifier of the entry at position `i`.
    pub fn id_at(&self, i: usize) -> (r: &String)
        requires
            i < self@.len(),
        ensures
            r@ == self@[i as int].0,
    {
        &self.entries[i].0
    }

    /// The tag list of the entry at position `i`.
    pub fn tags_at(&self, i: usize) -> (r: &Vec<String>)
        requires
            i < self@.len(),
        ensures
            r.deep_view() == self@[i as int].1,
    {
        &self.entries[i].1
    }

    /// Replaces the tag list of the entry at position `i`.
    pub fn set_tags_at(&mut self, i: usize, tags: Vec<String>)
        requires
            old(self).wf(),
            i < old(self)@.len(),
        ensures
            final(self).wf(),
            final(self)@ == old(self)@.update(i as int, (old(self)@[i as int].0, tags.deep_view())),
    {
        let id = self.entries[i].0.clone();
        proof {
            assert(id@ == self@[i as int].0);
        }
        self.entries[i] = (id, tags);
        proof {
            assert(self@ =~= old(self)@.update(
                i as int,
                (old(self)@[i as int].0, tags.deep_view()),
            ));
        }
    }

    /// The position of the entry carrying `id`, if one exists.
    fn index_of(&self, id: &str) -> (r: Option<usize>)
        ensures
            match r {
                Some(i) => i < self@.len() && self@[i as int].0 == id@,
                None => !has_entry_id(self@, id@),
            },
    {
        let mut i: usize = 0;
        while i < self.entries.len()
            invariant
                i <= self@.len(),
                forall|j: int| 0 <= j < i ==> (#[trigger] self@[j]).0 != id@,
            decreases self@.len() - i,
        {
            if crate::text::str_eq(self.entries[i].0.as_str(), id) {
                return Some(i);
            }
            i = i + 1;
        }
        None
    }

    /// Whether the store holds an entry named `id`.
    pub fn contains_id(&self, id: &str) -> (b: bool)
        ensures
            b == has_entry_id(self@, id@),
    {
        match self.index_of(id) {
            Some(i) => {
                proof {
                    assert(self@[i as int].0 == id@);
                }
                true
            },
            None => false,
        }
    }

    /// The tag list of the entry named `id`, if one exists.
    pub fn get(&self, id: &str) -> (r: Option<&Vec<String>>)
        ensures
            r is Some <==> has_entry_id(self@, id@),
            match r {
                Some(v) => exists|i: int|
                    0 <= i < self@.len() && #[trigger] self@[i] == (id@, v.deep_view()),
                None => true,
            },
    {
        match self.index_of(id) {
            Some(i) => {
                proof {
                    assert(self@[i as int].0 == id@);
                    assert(self@[i as int] == (id@, self.entries[i as int].1.deep_view()));
                }
                Some(&self.entries[i].1)
            },
            None => None,
        }
    }

    /// Inserts or replaces the entry named `id`: an existing entry keeps its
    /// position and receives the new tag list, a new entry goes at the end.
    pub fn insert(&mut self, id: String, tags: Vec<String>)
        requires
            old(self).wf(),
        ensures
            final(self).wf(),
            if has_entry_id(old(self)@, id@) {
                exists|i: int|
                    0 <= i < old(self)@.len() && (#[trigger] old(self)@[i]).0 == id@
                        && final(self)@ == old(self)@.update(i, (id@, tags.deep_view()))
            } else {
                final(self)@ == old(self)@.push((id@, tags.deep_view()))
            },
    {
        match self.index_of(id.as_str()) {
            Some(i) => {
                self.entries[i] = (id, tags);
                proof {
                    assert(self@ =~= old(self)@.update(i as int, (id@, tags.deep_view())));
                }
            },
            None => {
                self.entries.push((id, tags));
                proof {
                    assert(self@ =~= old(self)@.push((id@, tags.deep_view())));
                }
            },
        }
    }

    /// Removes the entry named `id` and returns its tag list.
    pub fn remove(&mut self, id: &str) -> (r: Option<Vec<String>>)
        requires
            old(self).wf(),
        ensures
            final(self).wf(),
            r is Some <==> has_entry_id(old(self)@, id@),
            match r {
                Some(v) => exists|i: int|
                    0 <= i < old(self)@.len() && #[trigger] old(self)@[i] == (id@, v.deep_view())
                        && final(self)@ == old(self)@.remove(i),
                None => final(self)@ == old(self)@,
            },
    {
        match self.index_of(id) {
            Some(i) => {
                let (_, tags) = self.entries.remove(i);
                proof {
                    assert(self@ =~= old(self)@.remove(i as int));
                    assert(old(self)@[i as int] == (id@, tags.deep_view()));
                }
                Some(tags)
            },
            None => None,
        }
    }
}

/// The entries of `entries` that satisfy `r`, in store order.
pub open spec fn matches_of(
    entries: Seq<(Seq<char>, Seq<Seq<char>>)>,
    r: RuleView,
) -> Seq<(Seq<char>, Seq<Seq<char>>)> {
    entries.filter(|e: (Seq<char>, Seq<Seq<char>>)| rule_matches(e.1, r))
}

/// Matching a prefix of the store yields a prefix of the full match list.
pub proof fn lemma_matches_of_take(entries: Seq<(Seq<char>, Seq<Seq<char>>)>, r: RuleView, i: int)
    requires
        0 <= i <= entries.len(),
    ensures
        matches_of(entries.take(i), r).len() <= matches_of(entries, r).len(),
        matches_of(entries.take(i), r) == matches_of(entries, r).take(
            matches_of(entries.take(i), r).len() as int,
        ),
    decreases entries.len() - i,
{
    broadcast use vstd::seq_lib::group_seq_lib_default;

    let p = |e: (Seq<char>, Seq<Seq<char>>)| rule_matches(e.1, r);
    if i == entries.len() {
        assert(entries.take(i) =~= entries);
        assert(matches_of(entries, r).take(matches_of(entries, r).len() as int) =~= matches_of(
            entries,
            r,
        ));
    } else {
        lemma_matches_of_take(entries, r, i + 1);
        assert(entries.take(i + 1) =~= entries.take(i).push(entries[i]));
        entries.take(i).lemma_filter_push(entries[i], p);
        let fi = matches_of(entries.take(i), r);
        let fi1 = matches_of(entries.take(i + 1), r);
        let full = matches_of(entries, r);
        assert(fi == fi1.take(fi.len() as int));
        assert(fi =~= full.take(fi.len() as int));
    }
}

/// Whether every tag of `tags` occurs in `entry_tags`.
fn all_tags_present(entry_tags: &Vec<String>, tags: &[String]) -> (b: bool)
    ensures
        b == rule_matches(entry_tags.deep_view(), RuleView::RequireAll(tags.deep_view())),
{
    let mut i: usize = 0;
    while i < tags.len()
        invariant
            i <= tags.len(),
            forall|j: int|
                0 <= j < i ==> entry_tags.deep_view().contains(#[trigger] tags.deep_view()[j]),
        decreases tags.len() - i,
    {
        if !has_tag(entry_tags, &tags[i]) {
            proof {
                assert(tags.deep_view()[i as int] == tags[i as int]@);
            }
            return false;
        }
        i = i + 1;
    }
    true
}

impl TagMap {
    /// The identifiers of the entries that carry every tag of `tags`.
    pub fn entries_matching_tags<'a>(&'a self, tags: &[String]) -> (r: Vec<&'a String>)
        ensures
            r.deep_view() == matches_of(self@, RuleView::RequireAll(tags.deep_view())).map_values(
                |e: (Seq<char>, Seq<Seq<char>>)| e.0,
            ),
    {
        let ghost rv = RuleView::RequireAll(tags.deep_view());
        let mut r: Vec<&'a String> = Vec::new();
        let mut i: usize = 0;
        proof {
            assert(self@.take(0int) =~= Seq::<(Seq<char>, Seq<Seq<char>>)>::empty());
            assert(r.deep_view() =~= matches_of(self@.take(0int), rv).map_values(
                |e: (Seq<char>, Seq<Seq<char>>)| e.0,
            ));
        }
        while i < self.entries.len()
            invariant
                i <= self@.len(),
                r.deep_view() == matches_of(self@.take(i as int), rv).map_values(
                    |e: (Seq<char>, Seq<Seq<char>>)| e.0,
                ),
            decreases self@.len() - i,
        {
            let ghost pre = matches_of(self@.take(i as int), rv);
            proof {
                assert(self@.take(i as int + 1) =~= self@.take(i as int).push(self@[i as int]));
                self@.take(i as int).lemma_filter_push(
                    self@[i as int],
                    |e: (Seq<char>, Seq<Seq<char>>)| rule_matches(e.1, rv),
                );
                assert(self@[i as int].1 == self.entries[i as int].1.deep_view());
            }
            if all_tags_present(&self.entries[i].1, tags) {
                let ghost r0 = r.deep_view();
                r.push(&self.entries[i].0);
                proof {
                    assert(r.deep_view() =~= r0.push(self.entries[i as int].0@));
                    assert(r.deep_view() =~= matches_of(self@.take(i as int + 1), rv).map_values(
                        |e: (Seq<char>, Seq<Seq<char>>)| e.0,
                    ));
                }
            } else {
                proof {
                    assert(r.deep_view() =~= matches_of(self@.take(i as int + 1), rv).map_values(
                        |e: (Seq<char>, Seq<Seq<char>>)| e.0,
                    ));
                }
            }
            i = i + 1;
        }
        proof {
            assert(self@.take(i as int) =~= self@);
        }
        r
    }
}

/// An empty conjunction holds of every tag list, so it matches every entry
/// of the store.
pub proof fn lemma_empty_rule_matches_all(
    entries: Seq<(Seq<char>, Seq<Seq<char>>)>,
    rs: Seq<RuleView>,
)
    requires
        rs.len() == 0,
    ensures
        matches_of(entries, RuleView::Conjunction(rs)) == entries,
    decreases entries.len(),
{
    let p = |e: (Seq<char>, Seq<Seq<char>>)| rule_matches(e.1, RuleView::Conjunction(rs));
    if entries.len() == 0 {
        assert(entries.filter(p) =~= entries);
    } else {
        lemma_empty_rule_matches_all(entries.drop_last(), rs);
        assert(p(entries.last()));
        assert(entries =~= entries.drop_last().push(entries.last()));
        entries.drop_last().lemma_filter_push(entries.last(), p);
        assert(entries.filter(p) =~= entries);
    }
}

/// Filtering a sequence whose elements all satisfy the predicate changes
/// nothing.
pub proof fn lemma_filter_identity<A>(s: Seq<A>, pred: spec_fn(A) -> bool)
    requires
        forall|i: int| 0 <= i < s.len() ==> pred(#[trigger] s[i]),
    ensures
        s.filter(pred) == s,
    decreases s.len(),
{
    if s.len() == 0 {
        assert(s.filter(pred) =~= s);
    } else {
        lemma_filter_identity(s.drop_last(), pred);
        assert(pred(s.last()));
        assert(s =~= s.drop_last().push(s.last()));
        s.drop_last().lemma_filter_push(s.last(), pred);
        assert(s.filter(pred) =~= s);
    }
}

/// `entries` after the names from index `i` on are added: a name not yet
/// present becomes a new entry with an empty tag list at the end; the rest
/// change nothing.
pub open spec fn with_missing_added(
    entries: Seq<(Seq<char>, Seq<Seq<char>>)>,
    names: Seq<Seq<char>>,
    i: int,
) -> Seq<(Seq<char>, Seq<Seq<char>>)>
    decreases names.len() - i,
{
    if i < 0 || i >= names.len() {
        entries
    } else if has_entry_id(entries, names[i]) {
        with_missing_added(entries, names, i + 1)
    } else {
        with_missing_added(entries.push((names[i], Seq::empty())), names, i + 1)
    }
}

/// The store and the count of new entries after the names from index `i`
/// on are added, skipping the reserved name and names already present.
pub open spec fn sync_add(
    entries: Seq<(Seq<char>, Seq<Seq<char>>)>,
    names: Seq<Seq<char>>,
    i: int,
    reserved: Seq<char>,
) -> (Seq<(Seq<char>, Seq<Seq<char>>)>, nat)
    decreases names.len() - i,
{
    if i < 0 || i >= names.len() {
        (entries, 0nat)
    } else if names[i] == reserved || has_entry_id(entries, names[i]) {
        sync_add(entries, names, i + 1, reserved)
    } else {
        let r = sync_add(entries.push((names[i], Seq::empty())), names, i + 1, reserved);
        (r.0, r.1 + 1)
    }
}

/// The store and the count of new entries after a full synchronization
/// against a directory listing: first every listed name that is neither
/// reserved nor present is added with an empty tag list, then every entry
/// whose name is no longer listed is dropped.
pub open spec fn sync_model(
    entries: Seq<(Seq<char>, Seq<Seq<char>>)>,
    names: Seq<Seq<char>>,
    reserved: Seq<char>,
) -> (Seq<(Seq<char>, Seq<Seq<char>>)>, nat) {
    let r = sync_add(entries, names, 0, reserved);
    (r.0.filter(|e: (Seq<char>, Seq<Seq<char>>)| names.contains(e.0)), r.1)
}

/// Synchronization never loses an entry the store already had.
proof fn lemma_sync_add_keeps(
    entries: Seq<(Seq<char>, Seq<Seq<char>>)>,
    names: Seq<Seq<char>>,
    i: int,
    reserved: Seq<char>,
    id: Seq<char>,
)
    requires
        0 <= i,
        has_entry_id(entries, id),
    ensures
        has_entry_id(sync_add(entries, names, i, reserved).0, id),
    decreases names.len() - i,
{
    if i < names.len() {
        if names[i] == reserved || has_entry_id(entries, names[i]) {
            lemma_sync_add_keeps(entries, names, i + 1, reserved, id);
        } else {
            let pushed = entries.push((names[i], Seq::empty()));
            assert(has_entry_id(pushed, id)) by {
                let w = choose|w: int| 0 <= w < entries.len() && (#[trigger] entries[w]).0 == id;
                assert(pushed[w].0 == id);
            }
            lemma_sync_add_keeps(pushed, names, i + 1, reserved, id);
        }
    }
}

/// After synchronization every listed, non-reserved name has an entry.
proof fn lemma_sync_add_covers(
    entries: Seq<(Seq<char>, Seq<Seq<char>>)>,
    names: Seq<Seq<char>>,
    i: int,
    reserved: Seq<char>,
    j: int,
)
    requires
        0 <= i <= j < names.len(),
        names[j] != reserved,
    ensures
        has_entry_id(sync_add(entries, names, i, reserved).0, names[j]),
    decreases names.len() - i,
{
    if i == j {
        if has_entry_id(entries, names[i]) {
            lemma_sync_add_keeps(entries, names, i + 1, reserved, names[j]);
        } else {
            let pushed = entries.push((names[i], Seq::empty()));
            assert(pushed[pushed.len() - 1].0 == names[i]);
            lemma_sync_add_keeps(pushed, names, i + 1, reserved, names[j]);
        }
    } else {
        if names[i] == reserved || has_entry_id(entries, names[i]) {
            lemma_sync_add_covers(entries, names, i + 1, reserved, j);
        } else {
            lemma_sync_add_covers(
                entries.push((names[i], Seq::empty())),
                names,
                i + 1,
                reserved,
                j,
            );
        }
    }
}

/// Synchronizing a store that already has an entry for every listed,
/// non-reserved name adds nothing.
proof fn lemma_sync_add_noop(
    entries: Seq<(Seq<char>, Seq<Seq<char>>)>,
    names: Seq<Seq<char>>,
    i: int,
    reserved: Seq<char>,
)
    requires
        0 <= i,
        forall|j: int|
            i <= j < names.len() ==> (#[trigger] names[j]) == reserved || has_entry_id(
                entries,
                names[j],
            ),
    ensures
        sync_add(entries, names, i, reserved) == (entries, 0nat),
    decreases names.len() - i,
{
    if i < names.len() {
        lemma_sync_add_noop(entries, names, i + 1, reserved);
    }
}

/// Synchronizing twice against an unchanged listing is idempotent: the
/// second run changes nothing and reports zero added entries.
pub proof fn lemma_sync_idempotent(
    entries: Seq<(Seq<char>, Seq<Seq<char>>)>,
    names: Seq<Seq<char>>,
    reserved: Seq<char>,
)
    ensures
        ({
            let first = sync_model(entries, names, reserved);
            sync_model(first.0, names, reserved) == (first.0, 0nat)
        }),
{
    broadcast use vstd::seq_lib::group_filter_ensures;

    let r0 = sync_add(entries, names, 0, reserved);
    let p = |e: (Seq<char>, Seq<Seq<char>>)| names.contains(e.0);
    let e1 = r0.0.filter(p);
    assert forall|j: int| 0 <= j < names.len() && (#[trigger] names[j]) != reserved implies
        has_entry_id(e1, names[j]) by {
        lemma_sync_add_covers(entries, names, 0, reserved, j);
        let w = choose|w: int| 0 <= w < r0.0.len() && (#[trigger] r0.0[w]).0 == names[j];
        assert(names.contains(names[j]));
        assert(p(r0.0[w]));
        assert(r0.0.filter(p).contains(r0.0[w]));
        let v = choose|v: int| 0 <= v < e1.len() && #[trigger] e1[v] == r0.0[w];
        assert((e1[v]).0 == names[j]);
    }
    lemma_sync_add_noop(e1, names, 0, reserved);
    assert forall|w: int| 0 <= w < e1.len() implies p(#[trigger] e1[w]) by {}
    lemma_filter_identity(e1, p);
}

/// Whether `names` holds a string equal to `id`.
fn name_listed(names: &Vec<String>, id: &String) -> (b: bool)
    ensures
        b == names.deep_view().contains(id@),
{
    let mut i: usize = 0;
    while i < names.len()
        invariant
            i <= names.len(),
            forall|j: int| 0 <= j < i ==> names.deep_view()[j] != id@,
        decreases names.len() - i,
    {
        if names[i] == *id {
            proof {
                assert(names.deep_view()[i as int] == id@);
            }
            return true;
        }
        i = i + 1;
    }
    false
}

impl TagMap {
    /// Adds an entry with an empty tag list for every listed name that is
    /// not yet in the store, in listing order.
    pub fn add_missing(&mut self, names: &Vec<String>)
        requires
            old(self).wf(),
        ensures
            final(self).wf(),
            final(self)@ == with_missing_added(old(self)@, names.deep_view(), 0),
    {
        let ghost nms = names.deep_view();
        let mut i: usize = 0;
        while i < names.len()
            invariant
                i <= names.len(),
                nms == names.deep_view(),
                nms.len() == names.len(),
                self.wf(),
                with_missing_added(self@, nms, i as int) == with_missing_added(old(self)@, nms, 0),
            decreases names.len() - i,
        {
            proof {
                assert(nms[i as int] == names[i as int]@);
            }
            if !self.contains_id(names[i].as_str()) {
                let tags: Vec<String> = Vec::new();
                proof {
                    assert(tags.deep_view() =~= Seq::<Seq<char>>::empty());
                }
                self.insert(names[i].clone(), tags);
            }
            i = i + 1;
        }
    }

    /// Synchronizes the store against a directory listing, as
    /// [`sync_model`] describes: every listed name that is neither the
    /// reserved list file nor an existing entry is added untagged, then
    /// every entry whose backing file is no longer listed is removed.
    /// Returns how many entries were added; removals are not counted.
    pub fn sync_with_listing(&mut self, names: &Vec<String>, reserved: &str) -> (added: usize)
        requires
            old(self).wf(),
        ensures
            final(self).wf(),
            (final(self)@, added as nat) == sync_model(old(self)@, names.deep_view(), reserved@),
            forall|i: int|
                0 <= i < final(self)@.len() ==> names.deep_view().contains(
                    (#[trigger] final(self)@[i]).0,
                ),
    {
        let ghost nms = names.deep_view();
        let ghost whole = sync_add(old(self)@, nms, 0, reserved@);
        let mut added: usize = 0;
        let mut i: usize = 0;
        while i < names.len()
            invariant
                i <= names.len(),
                added <= i,
                nms == names.deep_view(),
                nms.len() == names.len(),
                self.wf(),
                sync_add(self@, nms, i as int, reserved@).0 == whole.0,
                added + sync_add(self@, nms, i as int, reserved@).1 == whole.1,
            decreases names.len() - i,
        {
            proof {
                assert(nms[i as int] == names[i as int]@);
            }
            if !crate::text::str_eq(names[i].as_str(), reserved) && !self.contains_id(
                names[i].as_str(),
            ) {
                let tags: Vec<String> = Vec::new();
                proof {
                    assert(tags.deep_view() =~= Seq::<Seq<char>>::empty());
                }
                self.insert(names[i].clone(), tags);
                added = added + 1;
            }
            i = i + 1;
        }
        let ghost p = |e: (Seq<char>, Seq<Seq<char>>)| nms.contains(e.0);
        let mut kept: Vec<(String, Vec<String>)> = Vec::new();
        let mut j: usize = 0;
        proof {
            assert(self@.take(0int) =~= Seq::<(Seq<char>, Seq<Seq<char>>)>::empty());
            assert(kept.deep_view() =~= self@.take(0int).filter(p));
        }
        while j < self.entries.len()
            invariant
                j <= self@.len(),
                kept.deep_view() == self@.take(j as int).filter(p),
                p == (|e: (Seq<char>, Seq<Seq<char>>)| nms.contains(e.0)),
            decreases self@.len() - j,
        {
            let ghost kept0 = kept.deep_view();
            proof {
                assert(self@.take(j as int + 1) =~= self@.take(j as int).push(self@[j as int]));
                self@.take(j as int).lemma_filter_push(self@[j as int], p);
                assert(self@[j as int].0 == self.entries[j as int].0@);
            }
            if name_listed(names, &self.entries[j].0) {
                let id = self.entries[j].0.clone();
                let tags = self.entries[j].1.clone();
                proof {
                    assert(tags.deep_view() =~= self.entries[j as int].1.deep_view());
                }
                kept.push((id, tags));
                proof {
                    assert(kept.deep_view() =~= kept0.push(self@[j as int]));
                }
            }
            j = j + 1;
        }
        proof {
            assert(self@.take(j as int) =~= self@);
        }
        let ghost before_removal = self@;
        self.entries = kept;
        proof {
            assert(self@ == before_removal.filter(p));
            assert(self.wf()) by {
                broadcast use vstd::seq_lib::group_filter_ensures;

                let filtered = before_removal.filter(p);
                assert forall|a: int, b: int| 0 <= a < b < filtered.len() implies (
                #[trigger] filtered[a]).0 != (#[trigger] filtered[b]).0 by {
                    lemma_filter_keeps_unique(before_removal, p, a, b);
                }
            }
        }
        added
    }
}

/// Two distinct positions of a filtered sequence come from two distinct
/// positions of the original, so unique identifiers stay unique.
proof fn lemma_filter_keeps_unique(
    s: Seq<(Seq<char>, Seq<Seq<char>>)>,
    pred: spec_fn((Seq<char>, Seq<Seq<char>>)) -> bool,
    a: int,
    b: int,
)
    requires
        unique_ids(s),
        0 <= a < b < s.filter(pred).len(),
    ensures
        s.filter(pred)[a].0 != s.filter(pred)[b].0,
    decreases s.len(),
{
    if s.len() > 0 {
        let fs = s.filter(pred);
        let front = s.drop_last();
        assert(unique_ids(front)) by {
            assert(forall|q: int| 0 <= q < front.len() ==> front[q] == s[q]);
        }
        assert(s =~= front.push(s.last()));
        front.lemma_filter_push(s.last(), pred);
        if pred(s.last()) {
            if b < fs.len() - 1 {
                assert(front.filter(pred)[a] == fs[a]);
                assert(front.filter(pred)[b] == fs[b]);
                lemma_filter_keeps_unique(front, pred, a, b);
            } else {
                assert(fs[b] == s.last());
                assert(fs[a] == front.filter(pred)[a]);
                lemma_filter_element_of(front, pred, a);
                let w = choose|w: int|
                    0 <= w < front.len() && front[w] == front.filter(pred)[a];
                assert(s[w] == front[w]);
                assert(s[w].0 != s[s.len() - 1].0);
            }
        } else {
            assert(front.filter(pred)[a] == fs[a]);
            assert(front.filter(pred)[b] == fs[b]);
            lemma_filter_keeps_unique(front, pred, a, b);
        }
    }
}

/// Every element of a filtered sequence occurs in the original.
proof fn lemma_filter_element_of(
    s: Seq<(Seq<char>, Seq<Seq<char>>)>,
    pred: spec_fn((Seq<char>, Seq<Seq<char>>)) -> bool,
    a: int,
)
    requires
        0 <= a < s.filter(pred).len(),
    ensures
        exists|w: int| 0 <= w < s.len() && #[trigger] s[w] == s.filter(pred)[a],
    decreases s.len(),
{
    if s.len() > 0 {
        let front = s.drop_last();
        assert(s =~= front.push(s.last()));
        front.lemma_filter_push(s.last(), pred);
        if pred(s.last()) && a == s.filter(pred).len() - 1 {
            assert(s[s.len() - 1] == s.filter(pred)[a]);
        } else {
            lemma_filter_element_of(front, pred, a);
            let w = choose|w: int| 0 <= w < front.len() && #[trigger] front[w] == front.filter(pred)[a];
            assert(s[w] == s.filter(pred)[a]);
        }
    }
}

/// A lazy, restartable cursor over the entries of a store that satisfy a
/// rule.
///
/// The cursor borrows the store and filters on demand: each [`Self::next`]
/// call scans forward to the next satisfying entry. A copy of the cursor is
/// an independent cursor at the same position, and a fresh
/// [`TagMap::matching`] call restarts from the beginning. [`Self::skip`] and
/// [`Self::take`] paginate without materializing the full result list.
#[derive(Clone, Copy)]
pub struct MatchSequence<'a> {
    store: &'a TagMap,
    rule: &'a MatchRule,
    pos: usize,
}

impl<'a> MatchSequence<'a> {
    /// The entries of the underlying store.
    pub closed spec fn store_model(self) -> Seq<(Seq<char>, Seq<Seq<char>>)> {
        (*self.store)@
    }

    /// The rule the cursor filters by.
    pub closed spec fn rule_model(self) -> RuleView {
        rule_view(*self.rule)
    }

    /// How far the cursor has advanced through the store.
    pub closed spec fn cursor(self) -> int {
        self.pos as int
    }

    /// Everything the cursor would yield if driven to the end, from the
    /// start of the store.
    pub open spec fn full(self) -> Seq<(Seq<char>, Seq<Seq<char>>)> {
        matches_of(self.store_model(), self.rule_model())
    }

    /// The matches the cursor has already yielded.
    pub open spec fn emitted(self) -> Seq<(Seq<char>, Seq<Seq<char>>)> {
        matches_of(self.store_model().take(self.cursor()), self.rule_model())
    }

    /// The cursor stands inside the store.
    pub open spec fn wf(self) -> bool {
        0 <= self.cursor() <= self.store_model().len()
    }

    /// What the cursor has yielded is a prefix of the full match list: after
    /// `k` yields, exactly the first `k` matches are out.
    pub proof fn lemma_emitted_prefix(self)
        requires
            self.wf(),
        ensures
            self.emitted().len() <= self.full().len(),
            self.emitted() == self.full().take(self.emitted().len() as int),
    {
        lemma_matches_of_take(self.store_model(), self.rule_model(), self.cursor());
    }

    /// The next entry satisfying the rule, if one is left; the cursor moves
    /// past it.
    pub fn next(&mut self) -> (r: Option<(String, Vec<String>)>)
        requires
            old(self).wf(),
        ensures
            final(self).wf(),
            final(self).store_model() == old(self).store_model(),
            final(self).rule_model() == old(self).rule_model(),
            ({
                let k = old(self).emitted().len() as int;
                if k < old(self).full().len() {
                    &&& r matches Some(p) && (p.0@, p.1.deep_view()) == old(self).full()[k]
                    &&& final(self).emitted().len() == k + 1
                } else {
                    &&& r is None
                    &&& final(self).emitted() == old(self).emitted()
                    &&& old(self).emitted() == old(self).full()
                }
            }),
    {
        let ghost entries = self.store_model();
        let ghost rv = self.rule_model();
        let ghost k = old(self).emitted().len() as int;
        proof {
            lemma_matches_of_take(entries, rv, self.pos as int);
        }
        while self.pos < self.store.entries.len()
            invariant
                self.store == old(self).store,
                self.rule == old(self).rule,
                self.pos <= self.store_model().len(),
                matches_of(entries.take(self.pos as int), rv) == old(self).emitted(),
            decreases self.store_model().len() - self.pos,
        {
            let i = self.pos;
            proof {
                assert(entries.take(i as int + 1) =~= entries.take(i as int).push(
                    entries[i as int],
                ));
                entries.take(i as int).lemma_filter_push(
                    entries[i as int],
                    |e: (Seq<char>, Seq<Seq<char>>)| rule_matches(e.1, rv),
                );
                assert(entries[i as int].1 == self.store.entries[i as int].1.deep_view());
            }
            if self.rule.matches(&self.store.entries[i].1) {
                let id = self.store.entries[i].0.clone();
                let tags = self.store.entries[i].1.clone();
                self.pos = i + 1;
                proof {
                    assert(tags.deep_view() =~= self.store.entries[i as int].1.deep_view());
                    assert(self.emitted() == old(self).emitted().push(entries[i as int]));
                    lemma_matches_of_take(entries, rv, i as int + 1);
                    assert(self.emitted() == self.full().take(k + 1));
                    assert(k + 1 <= self.full().len());
                    assert(self.full().take(k + 1)[k] == entries[i as int]);
                    assert(self.full()[k] == entries[i as int]);
                    assert((id@, tags.deep_view()) =~= entries[i as int]);
                }
                return Some((id, tags));
            }
            self.pos = i + 1;
        }
        proof {
            assert(entries.take(self.pos as int) =~= entries);
        }
        None
    }
}

impl<'a> MatchSequence<'a> {
    /// Advances past the next `n` matches (or to the end, if fewer are
    /// left) and returns the moved cursor.
    pub fn skip(self, n: usize) -> (r: MatchSequence<'a>)
        requires
            self.wf(),
        ensures
            r.wf(),
            r.store_model() == self.store_model(),
            r.rule_model() == self.rule_model(),
            r.emitted().len() == vstd::math::min(
                self.emitted().len() as int + n as int,
                self.full().len() as int,
            ),
    {
        proof {
            lemma_matches_of_take(self.store_model(), self.rule_model(), self.cursor());
        }
        let mut r = self;
        let mut i: usize = 0;
        while i < n
            invariant
                i <= n,
                r.wf(),
                r.store_model() == self.store_model(),
                r.rule_model() == self.rule_model(),
                r.emitted().len() == vstd::math::min(
                    self.emitted().len() as int + i as int,
                    self.full().len() as int,
                ),
            decreases n - i,
        {
            proof {
                lemma_matches_of_take(r.store_model(), r.rule_model(), r.cursor());
            }
            let _ = r.next();
            i = i + 1;
        }
        r
    }

    /// The next `n` matches (or all that are left, if fewer), as owned
    /// pairs of identifier and tag list; a contiguous slice of the full
    /// match list, starting where the cursor stands.
    pub fn take(self, n: usize) -> (r: Vec<(String, Vec<String>)>)
        requires
            self.wf(),
        ensures
            r.deep_view() == self.full().subrange(
                vstd::math::min(self.emitted().len() as int, self.full().len() as int),
                vstd::math::min(self.emitted().len() as int + n as int, self.full().len() as int),
            ),
    {
        proof {
            lemma_matches_of_take(self.store_model(), self.rule_model(), self.cursor());
        }
        let ghost k0 = self.emitted().len() as int;
        let ghost full_len = self.full().len() as int;
        let mut out: Vec<(String, Vec<String>)> = Vec::new();
        proof {
            assert(out.deep_view() =~= self.full().subrange(k0, k0));
        }
        let mut c = self;
        let mut i: usize = 0;
        while i < n
            invariant
                i <= n,
                c.wf(),
                c.store_model() == self.store_model(),
                c.rule_model() == self.rule_model(),
                c.emitted().len() == vstd::math::min(k0 + i as int, full_len),
                out.deep_view() == self.full().subrange(k0, vstd::math::min(k0 + i as int, full_len)),
            decreases n - i,
        {
            proof {
                lemma_matches_of_take(c.store_model(), c.rule_model(), c.cursor());
            }
            let ghost out0 = out.deep_view();
            let ghost m = c.emitted().len() as int;
            match c.next() {
                Some(p) => {
                    proof {
                        assert((p.0@, p.1.deep_view()) == self.full()[m]);
                    }
                    out.push(p);
                    proof {
                        assert(out.deep_view() =~= out0.push(self.full()[m]));
                        assert(out.deep_view() =~= self.full().subrange(k0, m + 1));
                    }
                },
                None => {},
            }
            i = i + 1;
        }
        out
    }
}

/// One persisted line for an entry, as [`encode_entry`] describes.
fn encode_line(id: &String, tags: &Vec<String>) -> (r: String)
    ensures
        r@ == crate::codec::encode_entry(id@, tags.deep_view()),
{
    let ghost tagsv = tags.deep_view();
    let mut out = String::new();
    out.append("\"");
    out.append(id.as_str());
    out.append("\" ");
    proof {
        reveal_strlit("\"");
        reveal_strlit("\" ");
        assert(("\"")@ =~= seq!['"']);
        assert(("\" ")@ =~= seq!['"', ' ']);
        assert(out@ =~= seq!['"'] + id@ + seq!['"', ' ']);
    }
    let mut j: usize = 0;
    while j < tags.len()
        invariant
            j <= tags.len(),
            tagsv == tags.deep_view(),
            out@ + crate::codec::encode_tags_from(tagsv, j as int) == crate::codec::encode_entry(
                id@,
                tagsv,
            ),
        decreases tags.len() - j,
    {
        let ghost out0 = out@;
        out.append(tags[j].as_str());
        out.append(" ");
        proof {
            reveal_strlit(" ");
            assert((" ")@ =~= seq![' ']);
            assert(tagsv[j as int] == tags[j as int]@);
            assert(out@ =~= out0 + tagsv[j as int] + seq![' ']);
            assert(out0 + (tagsv[j as int] + seq![' '] + crate::codec::encode_tags_from(
                tagsv,
                j as int + 1,
            )) =~= out@ + crate::codec::encode_tags_from(tagsv, j as int + 1));
        }
        j = j + 1;
    }
    out
}

impl TagMap {
    /// Parses persisted list text into a store, as [`crate::codec::load_model`]
    /// describes: one entry per line, a later line with an already-seen
    /// identifier replacing that entry's tags. Returns the index of the
    /// first malformed line otherwise.
    pub fn from_list_string(text: &str) -> (r: Result<TagMap, crate::codec::FormatError>)
        ensures
            r is Ok <==> crate::codec::load_model(text@) is Some,
            r matches Ok(m) ==> m.wf() && Some(m@) == crate::codec::load_model(text@),
            r matches Err(e) ==> {
                let lines = crate::codec::spec_lines(text@);
                &&& e.line < lines.len()
                &&& crate::codec::parse_line(lines[e.line as int]) is None
                &&& forall|j: int|
                    0 <= j < e.line ==> (#[trigger] crate::codec::parse_line(lines[j])) is Some
            },
    {
        let lines = crate::codec::split_lines(text);
        let ghost lns = lines.deep_view();
        let ghost items = crate::codec::parsed_lines(lns);
        let mut map = TagMap::new();
        let mut i: usize = 0;
        proof {
            assert(items.take(0int) =~= Seq::<(Seq<char>, Seq<Seq<char>>)>::empty());
        }
        while i < lines.len()
            invariant
                i <= lines.len(),
                lns == lines.deep_view(),
                lns.len() == lines.len(),
                items == crate::codec::parsed_lines(lns),
                map.wf(),
                forall|j: int|
                    0 <= j < i ==> (#[trigger] crate::codec::parse_line(lns[j])) is Some,
                map@ == crate::codec::fold_insert(
                    Seq::<(Seq<char>, Seq<Seq<char>>)>::empty(),
                    items.take(i as int),
                ),
            decreases lines.len() - i,
        {
            proof {
                assert(lns[i as int] == lines[i as int]@);
            }
            match crate::codec::parse_line_exec(lines[i].as_str()) {
                Some((id, tags)) => {
                    let ghost m0 = map@;
                    let ghost idv = id@;
                    let ghost tagsv = tags.deep_view();
                    map.insert(id, tags);
                    proof {
                        if has_entry_id(m0, idv) {
                            let w = choose|w: int|
                                0 <= w < m0.len() && (#[trigger] m0[w]).0 == idv && map@
                                    == m0.update(w, (idv, tagsv));
                            crate::codec::lemma_insert_entry_update(m0, idv, tagsv, w);
                        } else {
                            crate::codec::lemma_insert_entry_fresh(m0, idv, tagsv);
                        }
                        assert(map@ == crate::codec::insert_entry(m0, idv, tagsv));
                        assert(items[i as int] == (idv, tagsv));
                        assert(items.take(i as int + 1) =~= items.take(i as int).push(
                            items[i as int],
                        ));
                        crate::codec::lemma_fold_insert_snoc(
                            Seq::<(Seq<char>, Seq<Seq<char>>)>::empty(),
                            items.take(i as int),
                            items[i as int],
                        );
                    }
                },
                None => {
                    return Err(crate::codec::FormatError { line: i });
                },
            }
            i = i + 1;
        }
        proof {
            assert(items.take(i as int) =~= items);
        }
        Ok(map)
    }

    /// Renders the store in the persisted list format, one line per entry in
    /// store order, as [`crate::codec::encode_store`] describes.
    pub fn to_list_string(&self) -> (r: String)
        ensures
            r@ == crate::codec::encode_store(self@),
    {
        let mut out = String::new();
        let mut i: usize = 0;
        while i < self.entries.len()
            invariant
                i <= self@.len(),
                out@ + crate::codec::encode_from(self@, i as int) == crate::codec::encode_store(
                    self@,
                ),
            decreases self@.len() - i,
        {
            let ghost out0 = out@;
            let line = encode_line(&self.entries[i].0, &self.entries[i].1);
            out.append(line.as_str());
            out.append("\n");
            proof {
                reveal_strlit("\n");
                assert(("\n")@ =~= seq!['\n']);
                assert(self@[i as int].0 == self.entries[i as int].0@);
                assert(self@[i as int].1 == self.entries[i as int].1.deep_view());
                assert(out@ =~= out0 + crate::codec::encode_entry(
                    self@[i as int].0,
                    self@[i as int].1,
                ) + seq!['\n']);
                assert(out0 + (crate::codec::encode_entry(self@[i as int].0, self@[i as int].1)
                    + seq!['\n'] + crate::codec::encode_from(self@, i as int + 1)) =~= out@
                    + crate::codec::encode_from(self@, i as int + 1));
            }
            i = i + 1;
        }
        out
    }
}

impl TagMap {
    /// A lazy cursor over the entries satisfying `rule`, in store order.
    pub fn matching<'b>(&'b self, rule: &'b MatchRule) -> (r: MatchSequence<'b>)
        ensures
            r.wf(),
            r.store_model() == self@,
            r.rule_model() == rule_view(*rule),
            r.emitted() == Seq::<(Seq<char>, Seq<Seq<char>>)>::empty(),
    {
        let r = MatchSequence { store: self, rule, pos: 0 };
        proof {
            assert(self@.take(0int) =~= Seq::<(Seq<char>, Seq<Seq<char>>)>::empty());
            assert(r.emitted() =~= Seq::<(Seq<char>, Seq<Seq<char>>)>::empty());
        }
        r
    }
}

} // verus!
