//! The fixed feature catalogue and its three states.
//!
//! An open-ended "what did we find" list cannot distinguish a construct the
//! corpus lacked from one the harness never looked for. A fixed catalogue
//! with three states can:
//!
//! - [`FeatureState::Observed`]: present in this corpus.
//! - [`FeatureState::CheckedAndAbsent`]: a detector ran and found none.
//! - [`FeatureState::NotCovered`]: no detector exists; says nothing about the
//!   corpus, only about the harness.

use vstd::prelude::*;
use crate::archive::{Archive, ArchiveView};
use crate::detect::{detect_by_group, detection_list, entry_feature_id, pair_views, xml_feature_id};
use crate::text::str_eq;

verus! {

/// Version of the catalogue itself.
pub const CATALOGUE_VERSION: &'static str = "1.0.0";

/// What is known about one feature, in this corpus, with this harness.
///
/// Deliberately not `Ord`: the lattice of [`FeatureState::merge`] is not the
/// declaration order.
#[derive(Debug, Clone, Copy, PartialEq, Eq, Structural)]
pub enum FeatureState {
    /// Seen in at least one book.
    Observed,
    /// A detector ran across the corpus and found none.
    CheckedAndAbsent,
    /// No detector exists.
    NotCovered,
}

/// How much is known: nothing, a detector looked, something was seen.
pub open spec fn knowledge(s: FeatureState) -> int {
    match s {
        FeatureState::NotCovered => 0,
        FeatureState::CheckedAndAbsent => 1,
        FeatureState::Observed => 2,
    }
}

/// The join of two states: whichever knows more.
pub open spec fn merged(a: FeatureState, b: FeatureState) -> FeatureState {
    if knowledge(a) >= knowledge(b) { a } else { b }
}

impl FeatureState {
    /// Fold in what another book showed. Knowledge only increases:
    /// `NotCovered` → `CheckedAndAbsent` → `Observed`, never back down.
    pub fn merge(self, other: Self) -> (r: Self)
        ensures
            r == merged(self, other),
    {
        match (self, other) {
            (FeatureState::Observed, _) | (_, FeatureState::Observed) => FeatureState::Observed,
            (FeatureState::CheckedAndAbsent, _) | (_, FeatureState::CheckedAndAbsent) => FeatureState::CheckedAndAbsent,
            (FeatureState::NotCovered, FeatureState::NotCovered) => FeatureState::NotCovered,
        }
    }
}

/// Merging is a join: commutative, associative, idempotent, and it never
/// loses knowledge.
pub proof fn lemma_merge_is_a_join(a: FeatureState, b: FeatureState, c: FeatureState)
    ensures
        merged(a, b) == merged(b, a),
        merged(merged(a, b), c) == merged(a, merged(b, c)),
        merged(a, a) == a,
        knowledge(merged(a, b)) >= knowledge(a),
        knowledge(merged(a, b)) >= knowledge(b),
        merged(FeatureState::Observed, b) == FeatureState::Observed,
        merged(FeatureState::NotCovered, b) == b,
{
}

/// Where a feature lives, for grouping the report.
#[derive(Debug, Clone, Copy, PartialEq, Eq, Structural, PartialOrd, Ord)]
pub enum Area {
    /// XML serialisation detail inside a content document or the OPF.
    Infoset,
    /// Zip container structure.
    Container,
    /// EPUB package-level structure.
    Package,
}

/// One catalogued feature that may have to be preserved.
#[derive(Debug, Clone, Copy)]
pub struct Feature {
    /// Stable slug.
    pub id: &'static str,
    /// Where it lives.
    pub area: Area,
    /// Why preserving it matters.
    pub why: &'static str,
}

/// The number of catalogued features.
pub const CATALOGUE_LEN: usize = 26;

/// The catalogue ids, in catalogue order.
pub open spec fn catalogue_id(i: int) -> Seq<char> {
    if i == 0 { "xml-comment"@ }
    else if i == 1 { "processing-instruction"@ }
    else if i == 2 { "cdata-section"@ }
    else if i == 3 { "doctype-declaration"@ }
    else if i == 4 { "internal-entity"@ }
    else if i == 5 { "byte-order-mark"@ }
    else if i == 6 { "crlf-line-endings"@ }
    else if i == 7 { "non-alphabetical-attribute-order"@ }
    else if i == 8 { "uncommon-namespace-prefix"@ }
    else if i == 9 { "xml-standalone-declaration"@ }
    else if i == 10 { "stored-entry-beyond-mimetype"@ }
    else if i == 11 { "zip-entry-comment"@ }
    else if i == 12 { "archive-comment"@ }
    else if i == 13 { "zip-extra-field"@ }
    else if i == 14 { "non-ascii-entry-name"@ }
    else if i == 15 { "epub2-package"@ }
    else if i == 16 { "ncx-present"@ }
    else if i == 17 { "opf-guide-element"@ }
    else if i == 18 { "encryption-xml"@ }
    else if i == 19 { "scripted-content"@ }
    else if i == 20 { "remote-resource"@ }
    else if i == 21 { "whitespace-significant-in-mixed-content"@ }
    else if i == 22 { "duplicate-entry-names"@ }
    else if i == 23 { "zip64-container"@ }
    else if i == 24 { "data-descriptor-entries"@ }
    else { "directory-entry"@ }
}

/// Whether an id is catalogued.
pub open spec fn is_catalogued(id: Seq<char>) -> bool {
    exists|i: int| 0 <= i < 26 && catalogue_id(i) == id
}

/// Catalogue ids, in catalogue order.
pub const FEATURE_IDS: [&'static str; 26] = [
    "xml-comment",
    "processing-instruction",
    "cdata-section",
    "doctype-declaration",
    "internal-entity",
    "byte-order-mark",
    "crlf-line-endings",
    "non-alphabetical-attribute-order",
    "uncommon-namespace-prefix",
    "xml-standalone-declaration",
    "stored-entry-beyond-mimetype",
    "zip-entry-comment",
    "archive-comment",
    "zip-extra-field",
    "non-ascii-entry-name",
    "epub2-package",
    "ncx-present",
    "opf-guide-element",
    "encryption-xml",
    "scripted-content",
    "remote-resource",
    "whitespace-significant-in-mixed-content",
    "duplicate-entry-names",
    "zip64-container",
    "data-descriptor-entries",
    "directory-entry",
];

/// Where each catalogued feature lives, in catalogue order.
pub const FEATURE_AREAS: [Area; 26] = [
    Area::Infoset,
    Area::Infoset,
    Area::Infoset,
    Area::Infoset,
    Area::Infoset,
    Area::Infoset,
    Area::Infoset,
    Area::Infoset,
    Area::Infoset,
    Area::Infoset,
    Area::Container,
    Area::Container,
    Area::Container,
    Area::Container,
    Area::Container,
    Area::Package,
    Area::Package,
    Area::Package,
    Area::Package,
    Area::Package,
    Area::Package,
    Area::Infoset,
    Area::Container,
    Area::Container,
    Area::Container,
    Area::Container,
];

/// Why each catalogued feature matters, in catalogue order. The last entry,
/// `directory-entry`, has no detector on purpose: the archive reader skips
/// directory records, so a detector there would report `CheckedAndAbsent` on
/// every corpus, a clean signal produced by the reader's filter rather than
/// by the books.
pub const FEATURE_WHY: [&'static str; 26] = [
    "ADR-F012 names comments explicitly",
    "Dropped silently by most serialisers",
    "Re-serialises as escaped text, changing bytes",
    "Legacy EPUB 2 content usually carries one",
    "A DTD-declared entity expands and never comes back",
    "Present or absent, and both must survive",
    "Windows toolchains emit them; normalising is a byte change",
    "ADR-F012 names attribute order",
    "Prefixes beyond the EPUB set must round-trip verbatim",
    "Part of the declaration, easily dropped",
    "Some writers store more than mimetype",
    "Rare, and lost by every naive rewriter",
    "Same",
    "Unix permissions and timestamps ride here",
    "Encoding flag handling differs between writers",
    "OPF 2 paths differ from EPUB 3 throughout",
    "EPUB 2 navigation, still common in EPUB 3 for compatibility",
    "Deprecated but widespread",
    "Font obfuscation; ADR-F021 stops at DRM, not obfuscation",
    "ADR-F006 strips it, but it must be detected to be stripped",
    "Sandbox denies it; the reader still has to see it",
    "Needs a round-trip diff, not a scan",
    "The zip reader collapses them before we see them",
    "No large-file corpus to hand",
    "Not surfaced by the zip reader in use",
    "Explicit directory records change the entry list",
];

/// Why the feature at position `i` matters.
pub open spec fn catalogue_why(i: int) -> Seq<char> {
    FEATURE_WHY@[i]@
}

/// The catalogue entry at position `i`.
pub fn catalogue_feature(i: usize) -> (f: Feature)
    requires
        i < CATALOGUE_LEN,
    ensures
        f.id@ == catalogue_id(i as int),
        f.area == FEATURE_AREAS@[i as int],
        f.why@ == catalogue_why(i as int),
{
    Feature { id: FEATURE_IDS[i], area: FEATURE_AREAS[i], why: FEATURE_WHY[i] }
}

/// The catalogue: fixed, versioned, and deliberately containing entries with
/// no detector, so that the difference between `CheckedAndAbsent` and
/// `NotCovered` can be shown.
pub fn catalogue() -> (v: Vec<Feature>)
    ensures
        v@.len() == CATALOGUE_LEN,
        forall|i: int| 0 <= i < CATALOGUE_LEN ==> (#[trigger] v@[i]).id@ == catalogue_id(i),
{
    let mut v: Vec<Feature> = Vec::new();
    let mut i: usize = 0;
    while i < CATALOGUE_LEN
        invariant
            i <= CATALOGUE_LEN,
            v@.len() == i,
            forall|k: int| 0 <= k < i ==> (#[trigger] v@[k]).id@ == catalogue_id(k),
        decreases CATALOGUE_LEN - i,
    {
        v.push(catalogue_feature(i));
        i = i + 1;
    }
    v
}


// ---------------------------------------------------------------------------
// Feature states, keyed by catalogue id
// ---------------------------------------------------------------------------

/// The first detection for `id`, if a detector reported one.
pub open spec fn detection_of(list: Seq<(Seq<char>, bool)>, id: Seq<char>) -> Option<bool> {
    if exists|i: int| 0 <= i < list.len() && (#[trigger] list[i]).0 == id {
        Some(list[choose|i: int| first_detection(list, id, i)].1)
    } else {
        None
    }
}

/// `i` is the first position reporting `id`.
pub open spec fn first_detection(list: Seq<(Seq<char>, bool)>, id: Seq<char>, i: int) -> bool {
    0 <= i < list.len() && list[i].0 == id && forall|j: int| 0 <= j < i ==> (#[trigger] list[j]).0 != id
}

/// The state one book gives a feature: observed, checked and absent, or
/// not covered when no detector reported on it.
pub open spec fn book_state(list: Seq<(Seq<char>, bool)>, id: Seq<char>) -> FeatureState {
    match detection_of(list, id) {
        Some(true) => FeatureState::Observed,
        Some(false) => FeatureState::CheckedAndAbsent,
        None => FeatureState::NotCovered,
    }
}

/// The first position reporting an id gives its verdict.
pub proof fn lemma_first_detection(list: Seq<(Seq<char>, bool)>, id: Seq<char>, i: int)
    requires
        first_detection(list, id, i),
    ensures
        detection_of(list, id) == Some(list[i].1),
{
    assert(0 <= i < list.len() && list[i].0 == id);
    let k = choose|k: int| first_detection(list, id, k);
    assert(first_detection(list, id, k));
    if k < i {
        assert(list[k].0 != id);
    }
    if i < k {
        assert(list[i].0 != id);
    }
}

fn state_in_book(list: &Vec<(&'static str, bool)>, id: &str) -> (r: FeatureState)
    ensures
        r == book_state(pair_views(list@), id@),
{
    let ghost pv = pair_views(list@);
    let mut i: usize = 0;
    while i < list.len()
        invariant
            pv == pair_views(list@),
            i <= list@.len(),
            forall|j: int| 0 <= j < i ==> (#[trigger] pv[j]).0 != id@,
        decreases list@.len() - i,
    {
        assert(pv[i as int] == (list@[i as int].0@, list@[i as int].1));
        if str_eq(list[i].0, id) {
            proof {
                lemma_first_detection(pv, id@, i as int);
            }
            return if list[i].1 { FeatureState::Observed } else { FeatureState::CheckedAndAbsent };
        }
        i = i + 1;
    }
    FeatureState::NotCovered
}

/// Feature states keyed by catalogue id: each id at most once.
#[derive(Debug)]
pub struct FeatureStates {
    entries: Vec<(String, FeatureState)>,
}

/// No id occurs twice.
pub open spec fn ids_distinct(s: Seq<(String, FeatureState)>) -> bool {
    forall|i: int, j: int| 0 <= i < j < s.len() ==> (#[trigger] s[i]).0@ != (#[trigger] s[j]).0@
}

fn position(entries: &Vec<(String, FeatureState)>, id: &str) -> (r: Option<usize>)
    ensures
        match r {
            Some(f) => f < entries@.len() && entries@[f as int].0@ == id@,
            None => forall|j: int| 0 <= j < entries@.len() ==> (#[trigger] entries@[j]).0@ != id@,
        },
{
    let mut i: usize = 0;
    while i < entries.len()
        invariant
            i <= entries@.len(),
            forall|j: int| 0 <= j < i ==> (#[trigger] entries@[j]).0@ != id@,
        decreases entries@.len() - i,
    {
        if str_eq(entries[i].0.as_str(), id) {
            return Some(i);
        }
        i = i + 1;
    }
    None
}

impl FeatureStates {
    #[verifier::type_invariant]
    spec fn well_formed(self) -> bool {
        ids_distinct(self.entries@)
    }

    /// The state recorded for an id, if any.
    pub closed spec fn state(self, id: Seq<char>) -> Option<FeatureState> {
        if exists|i: int| 0 <= i < self.entries@.len() && (#[trigger] self.entries@[i]).0@ == id {
            Some(self.entries@[choose|i: int| 0 <= i < self.entries@.len() && (#[trigger] self.entries@[i]).0@ == id].1)
        } else {
            None
        }
    }

    /// How many ids are recorded.
    pub closed spec fn size(self) -> nat {
        self.entries@.len()
    }

    /// The id at a position of the table.
    pub closed spec fn id_at(self, i: int) -> Seq<char> {
        self.entries@[i].0@
    }

    proof fn lemma_state_at(self, i: int)
        requires
            0 <= i < self.entries@.len(),
            ids_distinct(self.entries@),
        ensures
            self.state(self.entries@[i].0@) == Some(self.entries@[i].1),
    {
        let id = self.entries@[i].0@;
        assert(self.entries@[i].0@ == id);
        let k = choose|k: int| 0 <= k < self.entries@.len() && (#[trigger] self.entries@[k]).0@ == id;
        if k != i {
            if k < i {
                assert(self.entries@[k].0@ != self.entries@[i].0@);
            } else {
                assert(self.entries@[i].0@ != self.entries@[k].0@);
            }
        }
    }

    /// An empty table.
    pub fn new() -> (r: Self)
        ensures
            r.size() == 0,
            forall|id: Seq<char>| r.state(id) is None,
    {
        FeatureStates { entries: Vec::new() }
    }

    /// The state recorded for `id`.
    pub fn get(&self, id: &str) -> (r: Option<FeatureState>)
        ensures
            r == self.state(id@),
    {
        proof {
            use_type_invariant(self);
        }
        let mut i: usize = 0;
        while i < self.entries.len()
            invariant
                ids_distinct(self.entries@),
                i <= self.entries@.len(),
                forall|j: int| 0 <= j < i ==> (#[trigger] self.entries@[j]).0@ != id@,
            decreases self.entries@.len() - i,
        {
            if str_eq(self.entries[i].0.as_str(), id) {
                proof {
                    self.lemma_state_at(i as int);
                }
                return Some(self.entries[i].1);
            }
            i = i + 1;
        }
        None
    }

    /// Record `st` for `id`, replacing what was there.
    pub fn insert(&mut self, id: String, st: FeatureState)
        ensures
            forall|k: Seq<char>| #[trigger] final(self).state(k) == if k == id@ {
                Some(st)
            } else {
                old(self).state(k)
            },
            final(self).size() == old(self).size() + if old(self).state(id@) is None {
                1nat
            } else {
                0nat
            },
    {
        proof {
            use_type_invariant(&*self);
        }
        let mut entries = Vec::new();
        std::mem::swap(&mut entries, &mut self.entries);
        let ghost before = FeatureStates { entries };
        assert(before.size() == old(self).size());
        let found = position(&entries, id.as_str());
        match found {
            Some(f) => {
                let ghost prev = entries@;
                proof {
                    before.lemma_state_at(f as int);
                }
                assert(old(self).state(id@) is Some);
                entries.set(f, (id, st));
                let ghost after = FeatureStates { entries };
                assert(ids_distinct(entries@)) by {
                    assert forall|a: int, b: int| 0 <= a < b < entries@.len() implies (#[trigger] entries@[a]).0@ != (#[trigger] entries@[b]).0@ by {
                        assert(prev[a].0@ != prev[b].0@);
                        if a == f { assert(prev[f as int].0@ == id@); }
                        if b == f { assert(prev[f as int].0@ == id@); }
                    }
                }
                assert forall|k: Seq<char>| #[trigger] after.state(k) == if k == id@ { Some(st) } else { before.state(k) } by {
                    if k == id@ {
                        after.lemma_state_at(f as int);
                    } else if exists|j: int| 0 <= j < prev.len() && (#[trigger] prev[j]).0@ == k {
                        let j = choose|j: int| 0 <= j < prev.len() && (#[trigger] prev[j]).0@ == k;
                        assert(j != f);
                        before.lemma_state_at(j);
                        after.lemma_state_at(j);
                    } else {
                        assert forall|j: int| 0 <= j < entries@.len() implies (#[trigger] entries@[j]).0@ != k by {
                            if j != f { assert(prev[j].0@ != k); }
                        }
                    }
                }
                self.entries = entries;
            },
            None => {
                let ghost prev = entries@;
                entries.push((id, st));
                let ghost after = FeatureStates { entries };
                assert(ids_distinct(entries@)) by {
                    assert forall|a: int, b: int| 0 <= a < b < entries@.len() implies (#[trigger] entries@[a]).0@ != (#[trigger] entries@[b]).0@ by {
                        if b == prev.len() {
                            assert(entries@[a] == prev[a]);
                        } else {
                            assert(entries@[a] == prev[a] && entries@[b] == prev[b]);
                        }
                    }
                }
                assert forall|k: Seq<char>| #[trigger] after.state(k) == if k == id@ { Some(st) } else { before.state(k) } by {
                    if k == id@ {
                        after.lemma_state_at(prev.len() as int);
                    } else if exists|j: int| 0 <= j < prev.len() && (#[trigger] prev[j]).0@ == k {
                        let j = choose|j: int| 0 <= j < prev.len() && (#[trigger] prev[j]).0@ == k;
                        assert(entries@[j] == prev[j]);
                        before.lemma_state_at(j);
                        after.lemma_state_at(j);
                    } else {
                        assert forall|j: int| 0 <= j < entries@.len() implies (#[trigger] entries@[j]).0@ != k by {
                            if j < prev.len() { assert(entries@[j] == prev[j]); }
                        }
                    }
                }
                self.entries = entries;
            },
        }
    }

    /// How many ids are recorded.
    pub fn len(&self) -> (r: usize)
        ensures
            r == self.size(),
    {
        self.entries.len()
    }

    /// The recorded ids, in table order.
    pub fn ids(&self) -> (r: Vec<String>)
        ensures
            r@.len() == self.size(),
            forall|i: int| 0 <= i < r@.len() ==> (#[trigger] r@[i])@ == self.id_at(i),
    {
        let mut r: Vec<String> = Vec::new();
        let mut i: usize = 0;
        while i < self.entries.len()
            invariant
                i <= self.entries@.len(),
                r@.len() == i,
                forall|k: int| 0 <= k < i ==> (#[trigger] r@[k])@ == self.id_at(k),
            decreases self.entries@.len() - i,
        {
            r.push(self.entries[i].0.clone());
            i = i + 1;
        }
        r
    }

    /// The recorded states, in the order of [`FeatureStates::ids`].
    pub fn values(&self) -> (r: Vec<FeatureState>)
        ensures
            r@.len() == self.size(),
            forall|i: int| 0 <= i < r@.len() ==> self.state(self.id_at(i)) == Some(#[trigger] r@[i]),
    {
        proof {
            use_type_invariant(self);
        }
        let mut r: Vec<FeatureState> = Vec::new();
        let mut i: usize = 0;
        while i < self.entries.len()
            invariant
                ids_distinct(self.entries@),
                i <= self.entries@.len(),
                r@.len() == i,
                forall|k: int| 0 <= k < i ==> self.state(self.id_at(k)) == Some(#[trigger] r@[k]),
            decreases self.entries@.len() - i,
        {
            proof {
                self.lemma_state_at(i as int);
            }
            r.push(self.entries[i].1);
            i = i + 1;
        }
        r
    }
}

/// Start every feature at `NotCovered`, so a corpus of zero books reports the
/// harness's coverage rather than an empty ecosystem.
pub fn initial_states() -> (r: FeatureStates)
    ensures
        forall|id: Seq<char>| #[trigger] r.state(id) == if is_catalogued(id) {
            Some(FeatureState::NotCovered)
        } else {
            None
        },
{
    let mut r = FeatureStates::new();
    let mut i: usize = 0;
    while i < CATALOGUE_LEN
        invariant
            i <= CATALOGUE_LEN,
            forall|id: Seq<char>| #[trigger] r.state(id) == if exists|k: int| 0 <= k < i && catalogue_id(k) == id {
                Some(FeatureState::NotCovered)
            } else {
                None
            },
        decreases CATALOGUE_LEN - i,
    {
        let f = catalogue_feature(i);
        r.insert(f.id.to_owned(), FeatureState::NotCovered);
        proof {
            assert forall|id: Seq<char>| #[trigger] r.state(id) == if exists|k: int| 0 <= k < i + 1 && catalogue_id(k) == id {
                Some(FeatureState::NotCovered)
            } else {
                None
            } by {
                if id == catalogue_id(i as int) {
                    assert(exists|k: int| 0 <= k < i + 1 && catalogue_id(k) == id);
                } else if exists|k: int| 0 <= k < i + 1 && catalogue_id(k) == id {
                    let k = choose|k: int| 0 <= k < i + 1 && catalogue_id(k) == id;
                    assert(k < i);
                }
            }
        }
        i = i + 1;
    }
    r
}

/// The state a feature has before any book: not covered.
pub open spec fn prior(s: Option<FeatureState>) -> FeatureState {
    match s {
        Some(x) => x,
        None => FeatureState::NotCovered,
    }
}

/// The states after folding in one book's detections: every catalogued
/// feature joined with what the book showed, nothing else changed.
pub open spec fn folded(before: FeatureStates, after: FeatureStates, list: Seq<(Seq<char>, bool)>) -> bool {
    forall|id: Seq<char>| #[trigger] after.state(id) == if is_catalogued(id) {
        Some(merged(prior(before.state(id)), book_state(list, id)))
    } else {
        before.state(id)
    }
}

/// Fold one book's detections into the running state: every catalogued
/// feature is joined with what this book showed, and nothing else changes.
pub fn accumulate(states: &mut FeatureStates, archive: &Archive)
    ensures
        folded(*old(states), *final(states), detection_list(archive@)),
{
    let detected = detect_by_group(archive);
    let ghost list = detection_list(archive@);
    let ghost start = *states;
    let mut i: usize = 0;
    while i < CATALOGUE_LEN
        invariant
            pair_views(detected@) == list,
            list == detection_list(archive@),
            i <= CATALOGUE_LEN,
            forall|id: Seq<char>| #[trigger] states.state(id) == if exists|k: int| 0 <= k < i && catalogue_id(k) == id {
                Some(merged(prior(start.state(id)), book_state(list, id)))
            } else {
                start.state(id)
            },
        decreases CATALOGUE_LEN - i,
    {
        let f = catalogue_feature(i);
        let now = book_state_exec(&detected, f.id);
        let cur = match states.get(f.id) {
            Some(s) => s,
            None => FeatureState::NotCovered,
        };
        let ghost before = *states;
        states.insert(f.id.to_owned(), cur.merge(now));
        proof {
            assert forall|id: Seq<char>| #[trigger] states.state(id) == if exists|k: int| 0 <= k < i + 1 && catalogue_id(k) == id {
                Some(merged(prior(start.state(id)), book_state(list, id)))
            } else {
                start.state(id)
            } by {
                if id == catalogue_id(i as int) {
                    assert(exists|k: int| 0 <= k < i + 1 && catalogue_id(k) == id);
                    lemma_merge_is_a_join(prior(start.state(id)), book_state(list, id), book_state(list, id));
                } else if exists|k: int| 0 <= k < i + 1 && catalogue_id(k) == id {
                    let k = choose|k: int| 0 <= k < i + 1 && catalogue_id(k) == id;
                    assert(k < i);
                }
            }
        }
        i = i + 1;
    }
    proof {
        assert forall|id: Seq<char>| #[trigger] is_catalogued(id) == exists|k: int| 0 <= k < 26 && catalogue_id(k) == id by {}
    }
}

fn book_state_exec(list: &Vec<(&'static str, bool)>, id: &str) -> (r: FeatureState)
    ensures
        r == book_state(pair_views(list@), id@),
{
    state_in_book(list, id)
}

/// Folding in a book never loses knowledge: a feature observed in one book
/// stays observed whatever later books lack, no catalogued feature ends up
/// knowing less than before, and a feature the book's detectors say nothing
/// about keeps its state.
pub proof fn law_knowledge_is_never_lost(before: FeatureStates, after: FeatureStates, list: Seq<(Seq<char>, bool)>, id: Seq<char>)
    requires
        folded(before, after, list),
        is_catalogued(id),
    ensures
        before.state(id) == Some(FeatureState::Observed) ==> after.state(id) == Some(FeatureState::Observed),
        after.state(id) is Some,
        knowledge(prior(after.state(id))) >= knowledge(prior(before.state(id))),
        book_state(list, id) == FeatureState::NotCovered ==> after.state(id) == Some(prior(before.state(id))),
{
    lemma_merge_is_a_join(prior(before.state(id)), book_state(list, id), book_state(list, id));
    assert(after.state(id) == Some(merged(prior(before.state(id)), book_state(list, id))));
}

/// Whether some detector reports on a catalogue id: every catalogued feature
/// but the last five, which have none.
pub open spec fn detectable(id: Seq<char>) -> bool {
    exists|i: int| 0 <= i < 21 && catalogue_id(i) == id
}

/// Every id a book's detections carry is one some detector reports on.
proof fn lemma_detections_are_detectable(a: ArchiveView, i: int)
    requires
        0 <= i < detection_list(a).len(),
    ensures
        detectable(detection_list(a)[i].0),
{
    assert(forall|k: int| 0 <= k < 12 ==> exists|j: int| 0 <= j < 21 && catalogue_id(j) == #[trigger] xml_feature_id(k)) by {
        assert(catalogue_id(0) == xml_feature_id(0));
        assert(catalogue_id(1) == xml_feature_id(1));
        assert(catalogue_id(2) == xml_feature_id(2));
        assert(catalogue_id(3) == xml_feature_id(3));
        assert(catalogue_id(4) == xml_feature_id(4));
        assert(catalogue_id(5) == xml_feature_id(5));
        assert(catalogue_id(6) == xml_feature_id(6));
        assert(catalogue_id(9) == xml_feature_id(7));
        assert(catalogue_id(8) == xml_feature_id(8));
        assert(catalogue_id(7) == xml_feature_id(9));
        assert(catalogue_id(19) == xml_feature_id(10));
        assert(catalogue_id(20) == xml_feature_id(11));
    }
    assert(forall|k: int| 0 <= k < 4 ==> exists|j: int| 0 <= j < 21 && catalogue_id(j) == #[trigger] entry_feature_id(k)) by {
        assert(catalogue_id(10) == entry_feature_id(0));
        assert(catalogue_id(11) == entry_feature_id(1));
        assert(catalogue_id(13) == entry_feature_id(2));
        assert(catalogue_id(14) == entry_feature_id(3));
    }
    assert(catalogue_id(12) == "archive-comment"@);
    assert(catalogue_id(15) == "epub2-package"@);
    assert(catalogue_id(17) == "opf-guide-element"@);
    assert(catalogue_id(16) == "ncx-present"@);
    assert(catalogue_id(18) == "encryption-xml"@);
}

/// The last five catalogue ids have no detector.
proof fn lemma_undetectable(i: int)
    requires
        21 <= i < 26,
    ensures
        !detectable(catalogue_id(i)),
{
    reveal_strlit("xml-comment");
    reveal_strlit("processing-instruction");
    reveal_strlit("cdata-section");
    reveal_strlit("doctype-declaration");
    reveal_strlit("internal-entity");
    reveal_strlit("byte-order-mark");
    reveal_strlit("crlf-line-endings");
    reveal_strlit("non-alphabetical-attribute-order");
    reveal_strlit("uncommon-namespace-prefix");
    reveal_strlit("xml-standalone-declaration");
    reveal_strlit("stored-entry-beyond-mimetype");
    reveal_strlit("zip-entry-comment");
    reveal_strlit("archive-comment");
    reveal_strlit("zip-extra-field");
    reveal_strlit("non-ascii-entry-name");
    reveal_strlit("epub2-package");
    reveal_strlit("ncx-present");
    reveal_strlit("opf-guide-element");
    reveal_strlit("encryption-xml");
    reveal_strlit("scripted-content");
    reveal_strlit("remote-resource");
    reveal_strlit("whitespace-significant-in-mixed-content");
    reveal_strlit("duplicate-entry-names");
    reveal_strlit("zip64-container");
    reveal_strlit("data-descriptor-entries");
    reveal_strlit("directory-entry");
    assert forall|j: int| 0 <= j < 21 implies catalogue_id(j) != catalogue_id(i) by {
        assert(catalogue_id(j).len() != catalogue_id(i).len() || catalogue_id(j)[0] != catalogue_id(i)[0]
            || catalogue_id(j)[1] != catalogue_id(i)[1] || catalogue_id(j)[3] != catalogue_id(i)[3]);
    }
}

/// Volume is not coverage: start from [`initial_states`] and fold in any
/// number of books, each as [`accumulate`] folds one in; after every one of
/// them the five catalogued features no detector reports on are still not
/// covered.
pub proof fn law_volume_is_not_coverage(books: Seq<ArchiveView>, states: Seq<FeatureStates>)
    requires
        states.len() == books.len() + 1,
        forall|id: Seq<char>| #[trigger] states[0].state(id) == if is_catalogued(id) {
            Some(FeatureState::NotCovered)
        } else {
            None
        },
        forall|k: int| 0 <= k < books.len() ==> folded(#[trigger] states[k], states[k + 1], detection_list(books[k])),
    ensures
        forall|k: int| 0 <= k < states.len() ==> {
            &&& (#[trigger] states[k]).state("whitespace-significant-in-mixed-content"@) == Some(FeatureState::NotCovered)
            &&& states[k].state("duplicate-entry-names"@) == Some(FeatureState::NotCovered)
            &&& states[k].state("zip64-container"@) == Some(FeatureState::NotCovered)
            &&& states[k].state("data-descriptor-entries"@) == Some(FeatureState::NotCovered)
            &&& states[k].state("directory-entry"@) == Some(FeatureState::NotCovered)
        },
{
    assert forall|k: int| 0 <= k < states.len() implies {
        &&& (#[trigger] states[k]).state("whitespace-significant-in-mixed-content"@) == Some(FeatureState::NotCovered)
        &&& states[k].state("duplicate-entry-names"@) == Some(FeatureState::NotCovered)
        &&& states[k].state("zip64-container"@) == Some(FeatureState::NotCovered)
        &&& states[k].state("data-descriptor-entries"@) == Some(FeatureState::NotCovered)
        &&& states[k].state("directory-entry"@) == Some(FeatureState::NotCovered)
    } by {
        lemma_undetectable(21);
        assert(is_catalogued(catalogue_id(21)));
        lemma_stays_uncovered(books, states, catalogue_id(21), k);
        lemma_undetectable(22);
        assert(is_catalogued(catalogue_id(22)));
        lemma_stays_uncovered(books, states, catalogue_id(22), k);
        lemma_undetectable(23);
        assert(is_catalogued(catalogue_id(23)));
        lemma_stays_uncovered(books, states, catalogue_id(23), k);
        lemma_undetectable(24);
        assert(is_catalogued(catalogue_id(24)));
        lemma_stays_uncovered(books, states, catalogue_id(24), k);
        lemma_undetectable(25);
        assert(is_catalogued(catalogue_id(25)));
        lemma_stays_uncovered(books, states, catalogue_id(25), k);
        assert(states[k].state(catalogue_id(21)) == Some(FeatureState::NotCovered));
        assert(states[k].state(catalogue_id(22)) == Some(FeatureState::NotCovered));
        assert(states[k].state(catalogue_id(23)) == Some(FeatureState::NotCovered));
        assert(states[k].state(catalogue_id(24)) == Some(FeatureState::NotCovered));
        assert(states[k].state(catalogue_id(25)) == Some(FeatureState::NotCovered));
    }
}

proof fn lemma_stays_uncovered(books: Seq<ArchiveView>, states: Seq<FeatureStates>, id: Seq<char>, k: int)
    requires
        states.len() == books.len() + 1,
        states[0].state(id) == Some(FeatureState::NotCovered),
        forall|m: int| 0 <= m < books.len() ==> folded(#[trigger] states[m], states[m + 1], detection_list(books[m])),
        is_catalogued(id),
        !detectable(id),
        0 <= k < states.len(),
    ensures
        states[k].state(id) == Some(FeatureState::NotCovered),
    decreases k,
{
    if k > 0 {
        lemma_stays_uncovered(books, states, id, k - 1);
        let list = detection_list(books[k - 1]);
        assert(folded(states[k - 1], states[k], list));
        assert(!exists|j: int| 0 <= j < list.len() && (#[trigger] list[j]).0 == id) by {
            if exists|j: int| 0 <= j < list.len() && (#[trigger] list[j]).0 == id {
                let j = choose|j: int| 0 <= j < list.len() && (#[trigger] list[j]).0 == id;
                lemma_detections_are_detectable(books[k - 1], j);
            }
        }
        assert(book_state(list, id) == FeatureState::NotCovered);
        assert(states[k].state(id) == Some(merged(FeatureState::NotCovered, FeatureState::NotCovered)));
    }
}

} // verus!
