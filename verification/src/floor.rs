//! What a corpus shows is a floor, and the type says so.
//!
//! A caveat that lives in a document separates from the claim it qualifies,
//! so the caveat is a type instead. [`FeatureFloor`] has no method that yields
//! a requirements list. The only route to [`Requirements`] is
//! [`FeatureFloor::widen`], which fails unless every feature the corpus could
//! not settle carries an explicit [`Disposition`] with a reason — and which
//! stamps the result with the corpus that produced it.
//!
//! Which features count as unsettled depends on the corpus: on a normalized
//! corpus `CheckedAndAbsent` is worth no more than `NotCovered`, because a
//! manager's writer strips exactly the constructs being enumerated.

use vstd::prelude::*;
use crate::catalogue::{
    catalogue_feature, catalogue_id, catalogue_why, is_catalogued, Area, FeatureState,
    FeatureStates, CATALOGUE_LEN, CATALOGUE_VERSION, FEATURE_AREAS,
};
use crate::manifest::Summary;
use crate::order::{insert_sorted, strictly_sorted};
use crate::producer::string_views;
use crate::provenance::{
    absence_evidence, reason_of, CorpusProvenance, Counts, Disposition, Dispositions, WideningGap,
};
use crate::text::{blank, bool_text, decimal, is_blank, padded, push_decimal, push_padded, str_eq};

verus! {

/// What a corpus measured: a lower bound on what must be preserved. There is
/// deliberately no method that reads it as a feature list.
#[derive(Debug)]
pub struct FeatureFloor {
    /// Catalogue this was measured against.
    pub catalogue_version: String,
    /// The corpus behind it.
    pub provenance: CorpusProvenance,
    /// State per catalogue id.
    pub states: FeatureStates,
}

/// The state a floor records for an id; `NotCovered` where it records none.
pub open spec fn state_in(states: FeatureStates, id: Seq<char>) -> FeatureState {
    match states.state(id) {
        Some(s) => s,
        None => FeatureState::NotCovered,
    }
}

/// Catalogue ids among the first `k` whose state is `st`, in catalogue order.
pub open spec fn ids_in_state(states: FeatureStates, st: FeatureState, k: int) -> Seq<Seq<char>>
    decreases k,
{
    if k <= 0 {
        Seq::empty()
    } else {
        ids_in_state(states, st, k - 1) + if state_in(states, catalogue_id(k - 1)) == st {
            seq![catalogue_id(k - 1)]
        } else {
            Seq::empty()
        }
    }
}

/// Whether the corpus leaves a feature in this state unsettled.
pub open spec fn unsettled_state(st: FeatureState, trust_absence: bool) -> bool {
    match st {
        FeatureState::Observed => false,
        FeatureState::CheckedAndAbsent => !trust_absence,
        FeatureState::NotCovered => true,
    }
}

/// Catalogue ids among the first `k` the corpus leaves unsettled.
pub open spec fn unsettled_ids(states: FeatureStates, trust_absence: bool, k: int) -> Seq<Seq<char>>
    decreases k,
{
    if k <= 0 {
        Seq::empty()
    } else {
        unsettled_ids(states, trust_absence, k - 1) + if unsettled_state(state_in(states, catalogue_id(k - 1)), trust_absence) {
            seq![catalogue_id(k - 1)]
        } else {
            Seq::empty()
        }
    }
}

/// The catalogue ids a floor leaves unsettled, in catalogue order.
pub open spec fn floor_unsettled(f: FeatureFloor) -> Seq<Seq<char>> {
    unsettled_ids(f.states, absence_evidence(f.provenance), CATALOGUE_LEN as int)
}

/// The catalogue ids a floor observed, in catalogue order.
pub open spec fn floor_observed(f: FeatureFloor) -> Seq<Seq<char>> {
    ids_in_state(f.states, FeatureState::Observed, CATALOGUE_LEN as int)
}

/// The ids of the first `k` keys that are not catalogued, in key order.
pub open spec fn unknown_ids(keys: Seq<Seq<char>>, k: int) -> Seq<Seq<char>>
    decreases k,
{
    if k <= 0 {
        Seq::empty()
    } else {
        unknown_ids(keys, k - 1) + if is_catalogued(keys[k - 1]) { Seq::empty() } else { seq![keys[k - 1]] }
    }
}

/// Position `i` carries a blank reason.
pub open spec fn blank_at(d: Dispositions, i: int) -> bool {
    0 <= i < d.keys().len() && blank(reason_of(d.decision_at(i)))
}

/// Some disposition carries a blank reason.
pub open spec fn has_blank(d: Dispositions) -> bool {
    exists|i: int| blank_at(d, i)
}

/// `i` is the first position with a blank reason.
pub open spec fn first_blank(d: Dispositions, i: int) -> bool {
    blank_at(d, i) && forall|j: int| 0 <= j < i ==> !blank_at(d, j)
}

/// The unsettled ids nobody dispositioned, in catalogue order.
pub open spec fn outstanding_ids(u: Seq<Seq<char>>, keys: Seq<Seq<char>>, k: int) -> Seq<Seq<char>>
    decreases k,
{
    if k <= 0 {
        Seq::empty()
    } else {
        outstanding_ids(u, keys, k - 1) + if keys.contains(u[k - 1]) { Seq::empty() } else { seq![u[k - 1]] }
    }
}

/// What a widening must preserve: every observed feature, and every feature
/// required anyway.
pub open spec fn preserved_set(observed: Seq<Seq<char>>, d: Dispositions) -> Set<Seq<char>> {
    observed.to_set().union(Set::new(|id: Seq<char>| exists|i: int| 0 <= i < d.keys().len() && d.keys()[i] == id
        && (d.decision_at(i) is RequireAnyway)))
}

/// A feature deliberately left out, and why.
#[derive(Debug)]
pub struct Exclusion {
    /// Catalogue id.
    pub id: String,
    /// The reason given at widening time.
    pub because: String,
}

/// The exclusions among the first `k` dispositions, in id order.
pub open spec fn exclusions(d: Dispositions, k: int) -> Seq<(Seq<char>, Seq<char>)>
    decreases k,
{
    if k <= 0 {
        Seq::empty()
    } else {
        exclusions(d, k - 1) + match d.decision_at(k - 1) {
            Disposition::Excluded { because } => seq![(d.keys()[k - 1], because@)],
            Disposition::RequireAnyway { .. } => Seq::empty(),
        }
    }
}

/// The views of exclusions.
pub open spec fn exclusion_views(v: Seq<Exclusion>) -> Seq<(Seq<char>, Seq<char>)> {
    Seq::new(v.len(), |i: int| (v[i].id@, v[i].because@))
}

/// A widened floor: the only form of the result that may be read as a
/// specification. Fields are private and there is no public constructor, so
/// the sole way to obtain one is [`FeatureFloor::widen`].
#[derive(Debug)]
pub struct Requirements {
    catalogue_version: String,
    provenance: CorpusProvenance,
    must_preserve: Vec<String>,
    excluded: Vec<Exclusion>,
}

impl Requirements {
    /// The catalogue version behind it.
    pub closed spec fn version_view(self) -> Seq<char> {
        self.catalogue_version@
    }

    /// The corpus behind it.
    pub closed spec fn provenance_view(self) -> CorpusProvenance {
        self.provenance
    }

    /// What must be preserved, sorted.
    pub closed spec fn preserve_view(self) -> Seq<Seq<char>> {
        string_views(self.must_preserve@)
    }

    /// What was excluded, with reasons, in id order.
    pub closed spec fn excluded_view(self) -> Seq<(Seq<char>, Seq<char>)> {
        exclusion_views(self.excluded@)
    }

    /// Features that must be preserved.
    pub fn must_preserve(&self) -> (v: &Vec<String>)
        ensures
            string_views(v@) == self.preserve_view(),
    {
        &self.must_preserve
    }

    /// Features excluded, with reasons.
    pub fn excluded(&self) -> (v: &Vec<Exclusion>)
        ensures
            exclusion_views(v@) == self.excluded_view(),
    {
        &self.excluded
    }

    /// The corpus this rests on. Not droppable: it is carried by the type.
    pub fn provenance(&self) -> (p: &CorpusProvenance)
        ensures
            *p == self.provenance_view(),
    {
        &self.provenance
    }

    /// Catalogue version behind it.
    pub fn catalogue_version(&self) -> (s: &str)
        ensures
            s@ == self.version_view(),
    {
        self.catalogue_version.as_str()
    }
}

/// Whether an id is in the catalogue.
fn catalogued(id: &str) -> (b: bool)
    ensures
        b == is_catalogued(id@),
{
    let mut i: usize = 0;
    while i < CATALOGUE_LEN
        invariant
            i <= CATALOGUE_LEN,
            forall|k: int| 0 <= k < i ==> catalogue_id(k) != id@,
        decreases CATALOGUE_LEN - i,
    {
        let f = catalogue_feature(i);
        if str_eq(f.id, id) {
            return true;
        }
        i = i + 1;
    }
    false
}

impl FeatureFloor {
    /// Assemble a floor from accumulated states and a run summary.
    pub fn new(states: FeatureStates, summary: &Summary) -> (f: FeatureFloor)
        ensures
            f.catalogue_version@ == CATALOGUE_VERSION@,
            f.states == states,
            f.provenance.books == summary.total,
            f.provenance.normalized == summary.normalized,
            f.provenance.largest_family_books == summary.largest_family_books,
            f.provenance.unnormalized_books == summary.unnormalized_books,
            strictly_sorted(string_views(f.provenance.families@)),
            string_views(f.provenance.families@).to_set() == crate::provenance::tally_keys(
                crate::manifest::tally_view(summary.unnormalized_families@),
            ).to_set(),
    {
        FeatureFloor {
            catalogue_version: CATALOGUE_VERSION.to_owned(),
            provenance: CorpusProvenance::from_summary(summary),
            states,
        }
    }

    /// The state recorded for `id`, `NotCovered` where none is.
    fn state_of(&self, id: &str) -> (s: FeatureState)
        ensures
            s == state_in(self.states, id@),
    {
        match self.states.get(id) {
            Some(s) => s,
            None => FeatureState::NotCovered,
        }
    }

    /// Features seen, in catalogue order. These are requirements on any
    /// corpus: one book containing a comment proves comments must survive.
    pub fn observed(&self) -> (v: Vec<&'static str>)
        ensures
            crate::archive::str_views(v@) == floor_observed(*self),
    {
        let mut v: Vec<&'static str> = Vec::new();
        let mut i: usize = 0;
        assert(crate::archive::str_views(v@) =~= Seq::<Seq<char>>::empty());
        while i < CATALOGUE_LEN
            invariant
                i <= CATALOGUE_LEN,
                crate::archive::str_views(v@) == ids_in_state(self.states, FeatureState::Observed, i as int),
            decreases CATALOGUE_LEN - i,
        {
            let f = catalogue_feature(i);
            let ghost before = crate::archive::str_views(v@);
            if self.state_of(f.id) == FeatureState::Observed {
                v.push(f.id);
                assert(crate::archive::str_views(v@) =~= before.push(f.id@));
            }
            i = i + 1;
            assert(crate::archive::str_views(v@) =~= ids_in_state(self.states, FeatureState::Observed, i as int));
        }
        v
    }

    /// Features this corpus cannot speak to, in catalogue order: always the
    /// `NotCovered` ones, and the `CheckedAndAbsent` ones too unless the
    /// corpus earns the right to have its silence believed.
    pub fn unsettled(&self) -> (v: Vec<&'static str>)
        ensures
            crate::archive::str_views(v@) == floor_unsettled(*self),
    {
        let trust = self.provenance.absence_is_evidence();
        let mut v: Vec<&'static str> = Vec::new();
        let mut i: usize = 0;
        assert(crate::archive::str_views(v@) =~= Seq::<Seq<char>>::empty());
        while i < CATALOGUE_LEN
            invariant
                i <= CATALOGUE_LEN,
                trust == absence_evidence(self.provenance),
                crate::archive::str_views(v@) == unsettled_ids(self.states, trust, i as int),
            decreases CATALOGUE_LEN - i,
        {
            let f = catalogue_feature(i);
            let ghost before = crate::archive::str_views(v@);
            let open = match self.state_of(f.id) {
                FeatureState::Observed => false,
                FeatureState::CheckedAndAbsent => !trust,
                FeatureState::NotCovered => true,
            };
            if open {
                v.push(f.id);
                assert(crate::archive::str_views(v@) =~= before.push(f.id@));
            }
            i = i + 1;
            assert(crate::archive::str_views(v@) =~= unsettled_ids(self.states, trust, i as int));
        }
        v
    }

    /// State tally over the catalogue.
    pub fn counts(&self) -> (c: Counts)
        ensures
            c.catalogued == CATALOGUE_LEN,
            c.observed == ids_in_state(self.states, FeatureState::Observed, CATALOGUE_LEN as int).len(),
            c.checked_and_absent == ids_in_state(self.states, FeatureState::CheckedAndAbsent, CATALOGUE_LEN as int).len(),
            c.not_covered == ids_in_state(self.states, FeatureState::NotCovered, CATALOGUE_LEN as int).len(),
    {
        let mut c = Counts { catalogued: CATALOGUE_LEN, observed: 0, checked_and_absent: 0, not_covered: 0 };
        let mut i: usize = 0;
        while i < CATALOGUE_LEN
            invariant
                i <= CATALOGUE_LEN,
                c.catalogued == CATALOGUE_LEN,
                c.observed == ids_in_state(self.states, FeatureState::Observed, i as int).len(),
                c.checked_and_absent == ids_in_state(self.states, FeatureState::CheckedAndAbsent, i as int).len(),
                c.not_covered == ids_in_state(self.states, FeatureState::NotCovered, i as int).len(),
                c.observed + c.checked_and_absent + c.not_covered == i,
            decreases CATALOGUE_LEN - i,
        {
            let f = catalogue_feature(i);
            match self.state_of(f.id) {
                FeatureState::Observed => c.observed = c.observed + 1,
                FeatureState::CheckedAndAbsent => c.checked_and_absent = c.checked_and_absent + 1,
                FeatureState::NotCovered => c.not_covered = c.not_covered + 1,
            }
            i = i + 1;
        }
        c
    }
}

/// The ids and decisions carried by a requirements list, against the floor
/// and dispositions it came from.
pub open spec fn widened_from(req: Requirements, f: FeatureFloor, d: Dispositions) -> bool {
    &&& req.version_view() == f.catalogue_version@
    &&& req.provenance_view().books == f.provenance.books
    &&& req.provenance_view().normalized == f.provenance.normalized
    &&& string_views(req.provenance_view().families@) == string_views(f.provenance.families@)
    &&& req.provenance_view().largest_family_books == f.provenance.largest_family_books
    &&& req.provenance_view().unnormalized_books == f.provenance.unnormalized_books
    &&& strictly_sorted(req.preserve_view())
    &&& req.preserve_view().to_set() == preserved_set(floor_observed(f), d)
    &&& req.excluded_view() == exclusions(d, d.keys().len() as int)
}

impl FeatureFloor {
    /// The one route from a floor to something consumable as a
    /// specification. In order: a disposition naming an id outside the
    /// catalogue fails with all such ids; then one with a blank reason fails
    /// with the first such id; then an unsettled feature nobody dispositioned
    /// fails with all such ids. Otherwise the result preserves every observed
    /// feature and every feature required anyway, excludes the rest with
    /// their reasons, and records the corpus it came from.
    pub fn widen(&self, dispositions: &Dispositions) -> (r: Result<Requirements, WideningGap>)
        ensures
            ({
                let keys = dispositions.keys();
                let unknown = unknown_ids(keys, keys.len() as int);
                let outstanding = outstanding_ids(floor_unsettled(*self), keys, floor_unsettled(*self).len() as int);
                &&& unknown.len() > 0 ==> (r matches Err(WideningGap::UnknownFeature { unknown: u }) && string_views(u@) == unknown)
                &&& unknown.len() == 0 && has_blank(*dispositions) ==> (r matches Err(WideningGap::EmptyReason { id })
                    && exists|i: int| first_blank(*dispositions, i) && keys[i] == id@)
                &&& unknown.len() == 0 && !has_blank(*dispositions) && outstanding.len() > 0 ==> (r matches Err(
                    WideningGap::Unsettled { outstanding: o },
                ) && string_views(o@) == outstanding)
                &&& unknown.len() == 0 && !has_blank(*dispositions) && outstanding.len() == 0 ==> (r matches Ok(req)
                    && widened_from(req, *self, *dispositions))
            }),
    {
        let n = dispositions.len();
        let ghost keys = dispositions.keys();
        let mut unknown: Vec<String> = Vec::new();
        let mut i: usize = 0;
        assert(string_views(unknown@) =~= Seq::<Seq<char>>::empty());
        while i < n
            invariant
                n == keys.len(),
                keys == dispositions.keys(),
                i <= n,
                string_views(unknown@) == unknown_ids(keys, i as int),
            decreases n - i,
        {
            let id = dispositions.id(i);
            let ghost before = string_views(unknown@);
            if !catalogued(id) {
                unknown.push(id.to_owned());
                assert(string_views(unknown@) =~= before.push(id@));
            }
            i = i + 1;
            assert(string_views(unknown@) =~= unknown_ids(keys, i as int));
        }
        if unknown.len() > 0 {
            return Err(WideningGap::UnknownFeature { unknown });
        }
        let mut i: usize = 0;
        while i < n
            invariant
                n == keys.len(),
                keys == dispositions.keys(),
                i <= n,
                unknown_ids(keys, keys.len() as int).len() == 0,
                forall|j: int| 0 <= j < i ==> !blank_at(*dispositions, j),
            decreases n - i,
        {
            if is_blank(dispositions.decision(i).because()) {
                assert(first_blank(*dispositions, i as int));
                return Err(WideningGap::EmptyReason { id: dispositions.id(i).to_owned() });
            }
            i = i + 1;
        }
        assert(!has_blank(*dispositions));
        let unsettled = self.unsettled();
        let ghost u = floor_unsettled(*self);
        let mut outstanding: Vec<String> = Vec::new();
        let mut i: usize = 0;
        assert(string_views(outstanding@) =~= Seq::<Seq<char>>::empty());
        while i < unsettled.len()
            invariant
                u == crate::archive::str_views(unsettled@),
                keys == dispositions.keys(),
                i <= u.len(),
                string_views(outstanding@) == outstanding_ids(u, keys, i as int),
            decreases u.len() - i,
        {
            let ghost before = string_views(outstanding@);
            let id = unsettled[i];
            assert(id@ == u[i as int]);
            if !dispositions.contains_key(id) {
                outstanding.push(id.to_owned());
                assert(string_views(outstanding@) =~= before.push(id@));
            }
            i = i + 1;
            assert(string_views(outstanding@) =~= outstanding_ids(u, keys, i as int));
        }
        if outstanding.len() > 0 {
            return Err(WideningGap::Unsettled { outstanding });
        }
        let observed = self.observed();
        let ghost obs = floor_observed(*self);
        let mut must: Vec<String> = Vec::new();
        let mut i: usize = 0;
        assert(string_views(must@) =~= Seq::<Seq<char>>::empty());
        assert(obs.take(0).to_set() =~= Set::<Seq<char>>::empty());
        assert(Seq::<Seq<char>>::empty().to_set() =~= Set::<Seq<char>>::empty());
        while i < observed.len()
            invariant
                obs == crate::archive::str_views(observed@),
                i <= obs.len(),
                strictly_sorted(string_views(must@)),
                string_views(must@).to_set() == obs.take(i as int).to_set(),
            decreases obs.len() - i,
        {
            let id = observed[i];
            assert(id@ == obs[i as int]);
            insert_sorted(&mut must, id.to_owned());
            assert(obs.take(i + 1) =~= obs.take(i as int).insert(i as int, obs[i as int]));
            proof {
                crate::order::lemma_insert_to_set(obs.take(i as int), i as int, obs[i as int]);
            }
            i = i + 1;
        }
        assert(obs.take(obs.len() as int) =~= obs);
        let mut excluded: Vec<Exclusion> = Vec::new();
        let mut i: usize = 0;
        assert(exclusion_views(excluded@) =~= Seq::<(Seq<char>, Seq<char>)>::empty());
        while i < n
            invariant
                n == keys.len(),
                keys == dispositions.keys(),
                i <= n,
                strictly_sorted(string_views(must@)),
                string_views(must@).to_set() == obs.to_set().union(Set::new(|id: Seq<char>| exists|j: int| 0 <= j < i
                    && keys[j] == id && (dispositions.decision_at(j) is RequireAnyway))),
                exclusion_views(excluded@) == exclusions(*dispositions, i as int),
            decreases n - i,
        {
            let id = dispositions.id(i);
            let ghost before_must = string_views(must@).to_set();
            let ghost before_ex = exclusion_views(excluded@);
            match dispositions.decision(i) {
                Disposition::RequireAnyway { .. } => {
                    insert_sorted(&mut must, id.to_owned());
                    assert(exclusion_views(excluded@) =~= exclusions(*dispositions, i + 1));
                },
                Disposition::Excluded { because } => {
                    excluded.push(Exclusion { id: id.to_owned(), because: because.clone() });
                    assert(exclusion_views(excluded@) =~= before_ex.push((id@, because@)));
                    assert(exclusion_views(excluded@) =~= exclusions(*dispositions, i + 1));
                },
            }
            assert(string_views(must@).to_set() =~= obs.to_set().union(Set::new(|x: Seq<char>| exists|j: int| 0 <= j < i + 1
                && keys[j] == x && (dispositions.decision_at(j) is RequireAnyway)))) by {
                assert forall|x: Seq<char>| string_views(must@).to_set().contains(x) <==> obs.to_set().union(Set::new(
                    |y: Seq<char>| exists|j: int| 0 <= j < i + 1 && keys[j] == y && (dispositions.decision_at(j) is RequireAnyway),
                )).contains(x) by {
                    if dispositions.decision_at(i as int) is RequireAnyway && x == keys[i as int] {
                        assert(0 <= i < i + 1 && keys[i as int] == x && (dispositions.decision_at(i as int) is RequireAnyway));
                    }
                    if exists|j: int| 0 <= j < i + 1 && keys[j] == x && (dispositions.decision_at(j) is RequireAnyway) {
                        let j = choose|j: int| 0 <= j < i + 1 && keys[j] == x && (dispositions.decision_at(j) is RequireAnyway);
                        if j < i {
                            assert(exists|k: int| 0 <= k < i && keys[k] == x && (dispositions.decision_at(k) is RequireAnyway));
                        }
                    }
                }
            }
            i = i + 1;
        }
        assert(preserved_set(obs, *dispositions) =~= string_views(must@).to_set());
        let provenance = self.provenance.duplicate();
        Ok(Requirements { catalogue_version: self.catalogue_version.clone(), provenance, must_preserve: must, excluded })
    }
}

// ---------------------------------------------------------------------------
// Laws
// ---------------------------------------------------------------------------

proof fn lemma_state_counts(states: FeatureStates, k: int)
    requires
        0 <= k,
    ensures
        ids_in_state(states, FeatureState::Observed, k).len() + ids_in_state(states, FeatureState::CheckedAndAbsent, k).len()
            + ids_in_state(states, FeatureState::NotCovered, k).len() == k,
    decreases k,
{
    if k > 0 {
        lemma_state_counts(states, k - 1);
    }
}

/// Every catalogued feature is in exactly one state: the three counts add
/// up to the catalogue.
pub proof fn law_counts_cover_the_catalogue(f: FeatureFloor)
    ensures
        ids_in_state(f.states, FeatureState::Observed, CATALOGUE_LEN as int).len() + ids_in_state(
            f.states,
            FeatureState::CheckedAndAbsent,
            CATALOGUE_LEN as int,
        ).len() + ids_in_state(f.states, FeatureState::NotCovered, CATALOGUE_LEN as int).len() == CATALOGUE_LEN,
{
    lemma_state_counts(f.states, CATALOGUE_LEN as int);
}

proof fn lemma_unsettled_membership(states: FeatureStates, trust: bool, k: int, m: int)
    requires
        0 <= m < k,
    ensures
        unsettled_state(state_in(states, catalogue_id(m)), trust) ==> unsettled_ids(states, trust, k).contains(catalogue_id(m)),
    decreases k,
{
    let u = unsettled_ids(states, trust, k);
    if m == k - 1 {
        if unsettled_state(state_in(states, catalogue_id(m)), trust) {
            assert(u[u.len() - 1] == catalogue_id(m));
        }
    } else {
        lemma_unsettled_membership(states, trust, k - 1, m);
        let p = unsettled_ids(states, trust, k - 1);
        if p.contains(catalogue_id(m)) {
            let w = choose|w: int| 0 <= w < p.len() && p[w] == catalogue_id(m);
            assert(u[w] == catalogue_id(m));
        }
    }
}

proof fn lemma_settled_absent(states: FeatureStates, trust: bool, k: int, x: Seq<char>)
    requires
        !unsettled_state(state_in(states, x), trust),
    ensures
        !unsettled_ids(states, trust, k).contains(x),
    decreases k,
{
    if k > 0 {
        lemma_settled_absent(states, trust, k - 1, x);
        let p = unsettled_ids(states, trust, k - 1);
        let u = unsettled_ids(states, trust, k);
        if u.contains(x) {
            let w = choose|w: int| 0 <= w < u.len() && u[w] == x;
            if w < p.len() {
                assert(p[w] == x);
            }
        }
    }
}

/// A feature nothing has looked for is unsettled on any corpus; a feature
/// seen is settled on any corpus; and on a corpus whose silence is not
/// believed, a feature looked for and not found is unsettled too.
pub proof fn law_what_a_corpus_settles(f: FeatureFloor, m: int)
    requires
        0 <= m < CATALOGUE_LEN,
    ensures
        state_in(f.states, catalogue_id(m)) == FeatureState::NotCovered ==> floor_unsettled(f).contains(catalogue_id(m)),
        !absence_evidence(f.provenance) && state_in(f.states, catalogue_id(m)) == FeatureState::CheckedAndAbsent
            ==> floor_unsettled(f).contains(catalogue_id(m)),
        state_in(f.states, catalogue_id(m)) == FeatureState::Observed ==> !floor_unsettled(f).contains(catalogue_id(m)),
{
    let trust = absence_evidence(f.provenance);
    lemma_unsettled_membership(f.states, trust, CATALOGUE_LEN as int, m);
    if state_in(f.states, catalogue_id(m)) == FeatureState::Observed {
        lemma_settled_absent(f.states, trust, CATALOGUE_LEN as int, catalogue_id(m));
    }
}

proof fn lemma_outstanding_empty(u: Seq<Seq<char>>, keys: Seq<Seq<char>>, k: int)
    requires
        0 <= k <= u.len(),
        outstanding_ids(u, keys, k).len() == 0,
    ensures
        forall|i: int| 0 <= i < k ==> keys.contains(#[trigger] u[i]),
    decreases k,
{
    if k > 0 {
        lemma_outstanding_empty(u, keys, k - 1);
    }
}

/// A floor widens only when every feature it leaves unsettled carries a
/// decision; what it then yields preserves every observed feature.
pub proof fn law_widening_settles_everything(f: FeatureFloor, d: Dispositions, req: Requirements)
    requires
        outstanding_ids(floor_unsettled(f), d.keys(), floor_unsettled(f).len() as int).len() == 0,
        widened_from(req, f, d),
    ensures
        forall|i: int| 0 <= i < floor_unsettled(f).len() ==> d.keys().contains(#[trigger] floor_unsettled(f)[i]),
        forall|i: int| 0 <= i < floor_observed(f).len() ==> req.preserve_view().contains(#[trigger] floor_observed(f)[i]),
{
    lemma_outstanding_empty(floor_unsettled(f), d.keys(), floor_unsettled(f).len() as int);
    assert forall|i: int| 0 <= i < floor_observed(f).len() implies req.preserve_view().contains(#[trigger] floor_observed(f)[i]) by {
        assert(floor_observed(f).to_set().contains(floor_observed(f)[i]));
        assert(req.preserve_view().to_set().contains(floor_observed(f)[i]));
    }
}

// ---------------------------------------------------------------------------
// The report
// ---------------------------------------------------------------------------

/// How a state prints: its variant's name.
pub open spec fn state_name(s: FeatureState) -> Seq<char> {
    match s {
        FeatureState::Observed => "Observed"@,
        FeatureState::CheckedAndAbsent => "CheckedAndAbsent"@,
        FeatureState::NotCovered => "NotCovered"@,
    }
}

/// How an area prints: its variant's name.
pub open spec fn area_name(a: Area) -> Seq<char> {
    match a {
        Area::Infoset => "Infoset"@,
        Area::Container => "Container"@,
        Area::Package => "Package"@,
    }
}

/// The report line of catalogue entry `i`: state, id, and why it matters.
pub open spec fn feature_line(f: FeatureFloor, i: int) -> Seq<char> {
    "  "@ + padded(state_name(state_in(f.states, catalogue_id(i))), 20) + " "@ + padded(catalogue_id(i), 42)
        + " "@ + catalogue_why(i) + "\n"@
}

/// The lines of the first `k` catalogue entries that live in `a`.
pub open spec fn area_lines(f: FeatureFloor, a: Area, k: int) -> Seq<char>
    decreases k,
{
    if k <= 0 {
        Seq::empty()
    } else {
        area_lines(f, a, k - 1) + if FEATURE_AREAS@[k - 1] == a { feature_line(f, k - 1) } else { Seq::empty() }
    }
}

/// One area's heading and its lines.
pub open spec fn area_block(f: FeatureFloor, a: Area) -> Seq<char> {
    area_name(a) + "\n"@ + area_lines(f, a, CATALOGUE_LEN as int)
}

/// Ids joined by a comma and a space.
pub open spec fn joined_ids(v: Seq<Seq<char>>) -> Seq<char>
    decreases v.len(),
{
    if v.len() == 0 {
        Seq::empty()
    } else if v.len() == 1 {
        v[0]
    } else {
        joined_ids(v.drop_last()) + ", "@ + v.last()
    }
}

/// The floor as a report: the corpus, the tally, every catalogued feature by
/// area with its state, and what the corpus left unsettled.
pub open spec fn floor_rendered(f: FeatureFloor) -> Seq<char> {
    "FEATURE FLOOR — catalogue "@ + f.catalogue_version@ + ", "@ + decimal(f.provenance.books as nat)
        + " books ("@ + decimal(f.provenance.normalized as nat) + " normalized)\n"@
        + "This is a lower bound. It is not a specification for futhark-epub\n"@
        + "and cannot become one without widening (ADR-F051).\n\n"@
        + decimal(CATALOGUE_LEN as nat) + " catalogued: "@
        + decimal(ids_in_state(f.states, FeatureState::Observed, CATALOGUE_LEN as int).len()) + " observed, "@
        + decimal(ids_in_state(f.states, FeatureState::CheckedAndAbsent, CATALOGUE_LEN as int).len())
        + " checked and absent, "@
        + decimal(ids_in_state(f.states, FeatureState::NotCovered, CATALOGUE_LEN as int).len())
        + " never looked at\n"@
        + "absence in this corpus is evidence: "@ + bool_text(absence_evidence(f.provenance)) + "\n\n"@
        + area_block(f, Area::Infoset) + area_block(f, Area::Container) + area_block(f, Area::Package)
        + "\nunsettled by this corpus ("@ + decimal(floor_unsettled(f).len()) + "): "@
        + joined_ids(floor_unsettled(f)) + "\n"@
}

fn state_name_exec(s: FeatureState) -> (t: &'static str)
    ensures
        t@ == state_name(s),
{
    match s {
        FeatureState::Observed => "Observed",
        FeatureState::CheckedAndAbsent => "CheckedAndAbsent",
        FeatureState::NotCovered => "NotCovered",
    }
}

fn area_name_exec(a: Area) -> (t: &'static str)
    ensures
        t@ == area_name(a),
{
    match a {
        Area::Infoset => "Infoset",
        Area::Container => "Container",
        Area::Package => "Package",
    }
}

/// Append the ids joined by a comma and a space.
fn push_joined(s: &mut String, v: &Vec<&'static str>)
    ensures
        final(s)@ == old(s)@ + joined_ids(crate::archive::str_views(v@)),
{
    let ghost start = s@;
    let ghost ids = crate::archive::str_views(v@);
    let mut i: usize = 0;
    assert(ids.take(0) =~= Seq::<Seq<char>>::empty());
    while i < v.len()
        invariant
            ids == crate::archive::str_views(v@),
            i <= v.len(),
            s@ == start + joined_ids(ids.take(i as int)),
        decreases v.len() - i,
    {
        if i > 0 {
            s.append(", ");
        }
        s.append(v[i]);
        proof {
            let t = ids.take(i as int + 1);
            assert(t.drop_last() =~= ids.take(i as int));
            assert(t.last() == v@[i as int]@);
            assert(s@ =~= start + joined_ids(t));
        }
        i = i + 1;
    }
    assert(ids.take(v.len() as int) =~= ids);
}

impl FeatureFloor {
    /// Append the heading and lines of one area.
    fn push_area(&self, s: &mut String, a: Area)
        ensures
            final(s)@ == old(s)@ + area_block(*self, a),
    {
        let ghost start = s@;
        s.append(area_name_exec(a));
        s.append("\n");
        let mut i: usize = 0;
        while i < CATALOGUE_LEN
            invariant
                i <= CATALOGUE_LEN,
                s@ == start + area_name(a) + "\n"@ + area_lines(*self, a, i as int),
            decreases CATALOGUE_LEN - i,
        {
            let f = catalogue_feature(i);
            if f.area == a {
                let ghost before = s@;
                s.append("  ");
                push_padded(s, state_name_exec(self.state_of(f.id)), 20);
                s.append(" ");
                push_padded(s, f.id, 42);
                s.append(" ");
                s.append(f.why);
                s.append("\n");
                assert(s@ =~= before + feature_line(*self, i as int));
            }
            i = i + 1;
        }
        assert(s@ =~= start + area_block(*self, a));
    }

    /// The floor as a report, for a person to read: the corpus it came from,
    /// the tally, each catalogued feature by area, and what is unsettled.
    pub fn render(&self) -> (s: String)
        ensures
            s@ == floor_rendered(*self),
    {
        let c = self.counts();
        let mut s = "FEATURE FLOOR — catalogue ".to_owned();
        s.append(self.catalogue_version.as_str());
        s.append(", ");
        push_decimal(&mut s, self.provenance.books as u64);
        s.append(" books (");
        push_decimal(&mut s, self.provenance.normalized as u64);
        s.append(" normalized)\n");
        s.append("This is a lower bound. It is not a specification for futhark-epub\n");
        s.append("and cannot become one without widening (ADR-F051).\n\n");
        push_decimal(&mut s, c.catalogued as u64);
        s.append(" catalogued: ");
        push_decimal(&mut s, c.observed as u64);
        s.append(" observed, ");
        push_decimal(&mut s, c.checked_and_absent as u64);
        s.append(" checked and absent, ");
        push_decimal(&mut s, c.not_covered as u64);
        s.append(" never looked at\n");
        s.append("absence in this corpus is evidence: ");
        s.append(if self.provenance.absence_is_evidence() { "true" } else { "false" });
        s.append("\n\n");
        self.push_area(&mut s, Area::Infoset);
        self.push_area(&mut s, Area::Container);
        self.push_area(&mut s, Area::Package);
        let u = self.unsettled();
        s.append("\nunsettled by this corpus (");
        push_decimal(&mut s, u.len() as u64);
        s.append("): ");
        push_joined(&mut s, &u);
        s.append("\n");
        s
    }
}

} // verus!
