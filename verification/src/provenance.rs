//! What a floor rests on, and what it takes to widen one.
//!
//! These are the inputs to the widening step: the corpus behind a
//! measurement, the decisions a human has to supply for whatever the corpus
//! could not settle, and the ways supplying them can fail.

use vstd::prelude::*;
use crate::manifest::{tally_view, Summary};
use crate::order::{chars_lt, insert_sorted, lemma_insert_sorted, locate, strictly_sorted};
use crate::producer::string_views;
use crate::verdict::{concentrated, FAMILY_FLOOR};

verus! {

/// What corpus produced a floor. Travels with the floor and into anything
/// derived from it.
#[derive(Debug)]
pub struct CorpusProvenance {
    /// Books examined.
    pub books: usize,
    /// Books showing evidence of having been rewritten by a manager.
    pub normalized: usize,
    /// Producer families among un-normalized files, named, in order.
    pub families: Vec<String>,
    /// Books held by the largest such family.
    pub largest_family_books: usize,
    /// Un-normalized books: the population that share is of.
    pub unnormalized_books: usize,
}

/// The keys of a tally.
pub open spec fn tally_keys(t: Seq<(Seq<char>, nat)>) -> Seq<Seq<char>> {
    Seq::new(t.len(), |i: int| t[i].0)
}

/// Whether absence in a corpus says anything about the ecosystem: only if
/// something was read, nothing was normalized, and the un-normalized
/// population clears the coverage gate in both directions.
pub open spec fn absence_evidence(p: CorpusProvenance) -> bool {
    p.books > 0 && p.normalized == 0 && p.families@.len() >= FAMILY_FLOOR && !concentrated(
        p.largest_family_books as nat,
        p.unnormalized_books as nat,
    )
}

impl CorpusProvenance {
    /// Read provenance off a run's summary: its counts, and its un-normalized
    /// families named in sorted order.
    pub fn from_summary(summary: &Summary) -> (p: CorpusProvenance)
        ensures
            p.books == summary.total,
            p.normalized == summary.normalized,
            p.largest_family_books == summary.largest_family_books,
            p.unnormalized_books == summary.unnormalized_books,
            strictly_sorted(string_views(p.families@)),
            string_views(p.families@).to_set() == tally_keys(tally_view(summary.unnormalized_families@)).to_set(),
    {
        let ghost keys = tally_keys(tally_view(summary.unnormalized_families@));
        let mut families: Vec<String> = Vec::new();
        let mut i: usize = 0;
        assert(string_views(families@) =~= Seq::<Seq<char>>::empty());
        assert(keys.take(0).to_set() =~= Set::<Seq<char>>::empty());
        assert(Seq::<Seq<char>>::empty().to_set() =~= Set::<Seq<char>>::empty());
        while i < summary.unnormalized_families.len()
            invariant
                keys == tally_keys(tally_view(summary.unnormalized_families@)),
                i <= keys.len(),
                strictly_sorted(string_views(families@)),
                string_views(families@).to_set() == keys.take(i as int).to_set(),
            decreases keys.len() - i,
        {
            let name = summary.unnormalized_families[i].0.clone();
            assert(name@ == keys[i as int]);
            insert_sorted(&mut families, name);
            assert(keys.take(i + 1) =~= keys.take(i as int).insert(i as int, keys[i as int]));
            proof {
                crate::order::lemma_insert_to_set(keys.take(i as int), i as int, keys[i as int]);
            }
            i = i + 1;
        }
        assert(keys.take(keys.len() as int) =~= keys);
        CorpusProvenance {
            books: summary.total,
            normalized: summary.normalized,
            families,
            largest_family_books: summary.largest_family_books,
            unnormalized_books: summary.unnormalized_books,
        }
    }

    /// Whether absence in this corpus says anything about the ecosystem. On a
    /// normalized corpus a feature no book contained is a fact about the
    /// sample: a manager's writer strips exactly the constructs enumerated.
    pub fn absence_is_evidence(&self) -> (b: bool)
        ensures
            b == absence_evidence(*self),
    {
        self.books > 0 && self.normalized == 0 && self.families.len() >= FAMILY_FLOOR
            && !crate::verdict::is_concentrated(self.largest_family_books, self.unnormalized_books)
    }

    /// An identical copy.
    pub fn duplicate(&self) -> (p: CorpusProvenance)
        ensures
            p.books == self.books,
            p.normalized == self.normalized,
            string_views(p.families@) == string_views(self.families@),
            p.largest_family_books == self.largest_family_books,
            p.unnormalized_books == self.unnormalized_books,
    {
        let mut families: Vec<String> = Vec::new();
        let mut i: usize = 0;
        while i < self.families.len()
            invariant
                i <= self.families@.len(),
                families@.len() == i,
                string_views(families@) =~= string_views(self.families@).take(i as int),
            decreases self.families@.len() - i,
        {
            let ghost before = families@;
            let c = self.families[i].clone();
            assert(c@ == self.families@[i as int]@);
            families.push(c);
            assert forall|k: int| 0 <= k < i + 1 implies #[trigger] string_views(families@)[k] == string_views(self.families@)[k] by {
                if k < i {
                    assert(families@[k] == before[k]);
                    assert(string_views(before)[k] == string_views(self.families@).take(i as int)[k]);
                }
            }
            assert(string_views(families@) =~= string_views(self.families@).take(i + 1));
            i = i + 1;
        }
        assert(string_views(self.families@).take(i as int) =~= string_views(self.families@));
        CorpusProvenance {
            books: self.books,
            normalized: self.normalized,
            families,
            largest_family_books: self.largest_family_books,
            unnormalized_books: self.unnormalized_books,
        }
    }
}

/// What a human decided about a feature the corpus could not settle.
#[derive(Debug)]
pub enum Disposition {
    /// Preserve it anyway. The corpus's silence is not trusted.
    RequireAnyway {
        /// Why, in words that are not "we did not see it".
        because: String,
    },
    /// Out of scope.
    Excluded {
        /// Why.
        because: String,
    },
}

/// The reason a disposition gives.
pub open spec fn reason_of(d: Disposition) -> Seq<char> {
    match d {
        Disposition::RequireAnyway { because } => because@,
        Disposition::Excluded { because } => because@,
    }
}

impl Disposition {
    /// The reason given, whichever way the decision went.
    pub fn because(&self) -> (s: &str)
        ensures
            s@ == reason_of(*self),
    {
        match self {
            Disposition::RequireAnyway { because } => because.as_str(),
            Disposition::Excluded { because } => because.as_str(),
        }
    }
}

/// Dispositions by catalogue id, kept in id order, each id once — a map that
/// iterates in sorted order.
#[derive(Debug)]
pub struct Dispositions {
    ids: Vec<String>,
    decisions: Vec<Disposition>,
}

impl Dispositions {
    #[verifier::type_invariant]
    spec fn well_formed(self) -> bool {
        &&& self.ids@.len() == self.decisions@.len()
        &&& strictly_sorted(string_views(self.ids@))
    }

    /// The ids, in sorted order.
    pub closed spec fn keys(self) -> Seq<Seq<char>> {
        string_views(self.ids@)
    }

    /// The decision at a position of the id order.
    pub closed spec fn decision_at(self, i: int) -> Disposition {
        self.decisions@[i]
    }

    /// No dispositions.
    pub fn new() -> (d: Dispositions)
        ensures
            d.keys().len() == 0,
    {
        let d = Dispositions { ids: Vec::new(), decisions: Vec::new() };
        assert(string_views(d.ids@) =~= Seq::<Seq<char>>::empty());
        d
    }

    /// How many ids carry a decision.
    pub fn len(&self) -> (n: usize)
        ensures
            n == self.keys().len(),
            strictly_sorted(self.keys()),
    {
        proof {
            use_type_invariant(self);
        }
        self.ids.len()
    }

    /// The id at position `i`, in sorted order.
    pub fn id(&self, i: usize) -> (s: &str)
        requires
            i < self.keys().len(),
        ensures
            s@ == self.keys()[i as int],
    {
        self.ids[i].as_str()
    }

    /// The decision at position `i`, in sorted order.
    pub fn decision(&self, i: usize) -> (d: &Disposition)
        requires
            i < self.keys().len(),
        ensures
            *d == self.decision_at(i as int),
    {
        proof {
            use_type_invariant(self);
        }
        &self.decisions[i]
    }

    /// Whether `id` carries a decision.
    pub fn contains_key(&self, id: &str) -> (b: bool)
        ensures
            b == self.keys().contains(id@),
    {
        proof {
            use_type_invariant(self);
        }
        let (p, found) = locate(&self.ids, id);
        if !found {
            let ghost sv = string_views(self.ids@);
            assert(!sv.contains(id@)) by {
                if sv.contains(id@) {
                    let k = choose|k: int| 0 <= k < sv.len() && sv[k] == id@;
                    if k < p {
                        assert(chars_lt(sv[k], id@));
                    } else {
                        assert(chars_lt(id@, sv[k]));
                    }
                }
            }
        } else {
            assert(string_views(self.ids@)[p as int] == id@);
        }
        found
    }

    /// Record a decision for `id`, replacing any earlier one.
    pub fn insert(&mut self, id: String, d: Disposition)
        ensures
            final(self).keys().to_set() == old(self).keys().to_set().insert(id@),
            forall|i: int| 0 <= i < final(self).keys().len() && final(self).keys()[i] == id@ ==> final(self).decision_at(i) == d,
            forall|i: int, j: int| 0 <= i < final(self).keys().len() && 0 <= j < old(self).keys().len()
                && final(self).keys()[i] == old(self).keys()[j] && old(self).keys()[j] != id@
                ==> final(self).decision_at(i) == old(self).decision_at(j),
    {
        let mut taken = Dispositions::new();
        std::mem::swap(self, &mut taken);
        proof {
            use_type_invariant(&taken);
        }
        let Dispositions { ids: mut ids, decisions: mut decisions } = taken;
        let ghost sv = string_views(ids@);
        let ghost dv = decisions@;
        let (p, found) = locate(&ids, id.as_str());
        if found {
            decisions.set(p, d);
            proof {
                assert(sv[p as int] == id@);
                assert(sv.contains(id@));
                assert(sv.to_set().insert(id@) =~= sv.to_set());
                assert forall|i: int| 0 <= i < sv.len() && sv[i] == id@ implies decisions@[i] == d by {
                    if i != p {
                        if i < p { assert(chars_lt(sv[i], sv[p as int])); } else { assert(chars_lt(sv[p as int], sv[i])); }
                    }
                }
                assert forall|i: int, j: int| 0 <= i < sv.len() && 0 <= j < sv.len() && sv[i] == sv[j] && sv[j] != id@
                    implies decisions@[i] == dv[j] by {
                    if i != j {
                        if i < j { assert(chars_lt(sv[i], sv[j])); } else { assert(chars_lt(sv[j], sv[i])); }
                    }
                }
            }
            *self = Dispositions { ids, decisions };
        } else {
            proof {
                lemma_insert_sorted(sv, p as int, id@);
                crate::order::lemma_insert_to_set(sv, p as int, id@);
            }
            let ghost idv = id@;
            ids.insert(p, id);
            decisions.insert(p, d);
            proof {
                let w = sv.insert(p as int, idv);
                assert(string_views(ids@) =~= w);
                assert forall|i: int| 0 <= i < w.len() && w[i] == idv implies decisions@[i] == d by {
                    if i != p {
                        if i < p { assert(chars_lt(w[i], w[p as int])); } else { assert(chars_lt(w[p as int], w[i])); }
                    }
                }
                assert forall|i: int, j: int| 0 <= i < w.len() && 0 <= j < sv.len() && w[i] == sv[j] && sv[j] != idv
                    implies decisions@[i] == dv[j] by {
                    if i < p {
                        assert(w[i] == sv[i]);
                        if i != j {
                            if i < j { assert(chars_lt(sv[i], sv[j])); } else { assert(chars_lt(sv[j], sv[i])); }
                        }
                    } else if i > p {
                        assert(w[i] == sv[i - 1]);
                        if i - 1 != j {
                            if i - 1 < j { assert(chars_lt(sv[i - 1], sv[j])); } else { assert(chars_lt(sv[j], sv[i - 1])); }
                        }
                    }
                }
            }
            *self = Dispositions { ids, decisions };
        }
    }
}

/// Why a floor could not be widened. Widening fails loudly rather than
/// producing a thinner requirements list, because a short list and a complete
/// one look identical once either is pasted into a design document.
#[derive(Debug)]
pub enum WideningGap {
    /// Features the corpus could not settle and nobody dispositioned.
    Unsettled {
        /// Catalogue ids still outstanding.
        outstanding: Vec<String>,
    },
    /// A disposition naming something not in the catalogue. A typo'd id
    /// would otherwise read as coverage.
    UnknownFeature {
        /// The unrecognised ids.
        unknown: Vec<String>,
    },
    /// A disposition with an empty reason, which is the silence again
    /// wearing a decision's clothes.
    EmptyReason {
        /// The feature whose reason was blank.
        id: String,
    },
}

/// How many features landed in each state.
#[derive(Debug, Clone, Copy)]
pub struct Counts {
    /// Catalogue size.
    pub catalogued: usize,
    /// Seen in at least one book.
    pub observed: usize,
    /// A detector ran and found none.
    pub checked_and_absent: usize,
    /// No detector exists.
    pub not_covered: usize,
}

/// Absence in a corpus is evidence exactly when something was read, no book
/// shows a manager's rewriting, the un-normalized books come from at least
/// the floor of producer families, and no one family holds more than the
/// allowed share of them: a corpus dominated by one family settles nothing,
/// however many families it has.
pub proof fn law_absence_needs_a_spread_corpus(p: CorpusProvenance)
    ensures
        absence_evidence(p) <==> {
            &&& p.books > 0
            &&& p.normalized == 0
            &&& p.families@.len() >= FAMILY_FLOOR
            &&& p.largest_family_books * 100 <= crate::verdict::MAX_FAMILY_SHARE_PCT * p.unnormalized_books
        },
{
}

} // verus!
