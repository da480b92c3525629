//! A round-trip run on a normalized corpus is a screening test, not a
//! qualifying one.
//!
//! A manager's writer normalizes exactly the constructs that break parsers, so
//! a normalized corpus is systematically easier than the wild population. The
//! result is one-directional: failure is decisive, and a pass is nearly
//! uninformative. That is encoded as a type, which has no plain pass: a
//! clean normalized corpus stays inconclusive, and only many independent
//! producer families can qualify.

use vstd::prelude::*;
use crate::manifest::{family_keys, is_normalized, summarises, Record, Summary};
use crate::floor::joined_ids;
use crate::producer::string_views;
use crate::report::{in_key_order, sort_tally};
use crate::manifest::tally_view;
use crate::text::{decimal, push_decimal};

verus! {

/// The pass criterion: at least this percentage of books lossless.
pub const LOSSLESS_THRESHOLD_PCT: usize = 99;

/// How many distinct un-normalized producer families a corpus needs before a
/// clean run counts as qualifying rather than screening.
pub const FAMILY_FLOOR: usize = 8;

/// The largest share, in percent of the un-normalized population, that one
/// family may hold in a qualifying corpus.
pub const MAX_FAMILY_SHARE_PCT: usize = 40;

/// Why a clean run could not qualify.
#[derive(Debug, Clone, Copy, PartialEq, Eq, Structural)]
pub enum Shortfall {
    /// Fewer un-normalized producer families than the floor.
    TooFewFamilies,
    /// Enough families, but one of them holds too much of the population.
    TooConcentrated,
}

/// What a run supports concluding. Deliberately lacks a plain pass.
#[derive(Debug, Clone, PartialEq, Eq)]
pub enum Verdict {
    /// Entry-content divergence exceeded the threshold. Decisive on any corpus.
    Disqualifying {
        /// Books that lost entry content.
        failures: usize,
        /// Books examined.
        total: usize,
    },
    /// Clean, but on a corpus too normalized, too narrow or too concentrated
    /// to support adoption. Not a pass.
    Inconclusive {
        /// Which half of the coverage gate failed.
        reason: Shortfall,
        /// Distinct producer families among un-normalized files.
        families: usize,
        /// Those families, named, in order, so the count can be argued with.
        family_names: Vec<String>,
        /// What that count would have to reach.
        floor: usize,
        /// Books in the largest such family.
        largest_family_books: usize,
        /// Un-normalized books.
        unnormalized_books: usize,
        /// Files showing normalization evidence.
        normalized: usize,
        /// Books examined.
        total: usize,
    },
    /// Clean, on a corpus with genuine producer diversity: the only result
    /// that supports adopting the reader.
    Qualifying {
        /// Distinct producer families among un-normalized files.
        families: usize,
        /// Those families, named, in order.
        family_names: Vec<String>,
        /// Books examined.
        total: usize,
    },
    /// Nothing was measured: an empty corpus and a clean corpus produce the
    /// same failure count, and only one of them is evidence.
    NothingMeasured,
}

/// The mathematical content of a verdict.
pub enum VerdictView {
    Disqualifying { failures: usize, total: usize },
    Inconclusive {
        reason: Shortfall,
        families: usize,
        family_names: Seq<Seq<char>>,
        floor: usize,
        largest_family_books: usize,
        unnormalized_books: usize,
        normalized: usize,
        total: usize,
    },
    Qualifying { families: usize, family_names: Seq<Seq<char>>, total: usize },
    NothingMeasured,
}

impl View for Verdict {
    type V = VerdictView;

    open spec fn view(&self) -> VerdictView {
        match self {
            Verdict::Disqualifying { failures, total } => VerdictView::Disqualifying { failures: *failures, total: *total },
            Verdict::Inconclusive { reason, families, family_names, floor, largest_family_books, unnormalized_books, normalized, total } =>
                VerdictView::Inconclusive {
                    reason: *reason,
                    families: *families,
                    family_names: string_views(family_names@),
                    floor: *floor,
                    largest_family_books: *largest_family_books,
                    unnormalized_books: *unnormalized_books,
                    normalized: *normalized,
                    total: *total,
                },
            Verdict::Qualifying { families, family_names, total } =>
                VerdictView::Qualifying { families: *families, family_names: string_views(family_names@), total: *total },
            Verdict::NothingMeasured => VerdictView::NothingMeasured,
        }
    }
}

/// The keys of a tally.
pub open spec fn keys_of(u: Seq<(Seq<char>, nat)>) -> Seq<Seq<char>> {
    Seq::new(u.len(), |i: int| u[i].0)
}

/// The producer families among un-normalized files, named, in key order.
pub open spec fn family_names_of(s: Summary) -> Seq<Seq<char>> {
    keys_of(in_key_order(tally_view(s.unnormalized_families@)))
}

/// At least the threshold share of books is lossless.
pub open spec fn clean_enough(lossless: nat, total: nat) -> bool {
    lossless * 100 >= LOSSLESS_THRESHOLD_PCT * total
}

/// One family holds more than the allowed share of the population.
pub open spec fn concentrated(largest: nat, population: nat) -> bool {
    largest * 100 > MAX_FAMILY_SHARE_PCT * population
}

/// The verdict a summary supports, against a family floor: nothing measured;
/// else disqualifying below the lossless threshold; else inconclusive with
/// too few families, or with one family too large; else qualifying.
pub open spec fn verdict_for(s: Summary, floor: usize) -> VerdictView {
    if s.total == 0 {
        VerdictView::NothingMeasured
    } else if !clean_enough(s.lossless as nat, s.total as nat) {
        VerdictView::Disqualifying { failures: s.entry_content_failures, total: s.total }
    } else if s.distinct_unnormalized_families < floor || concentrated(
        s.largest_family_books as nat,
        s.unnormalized_books as nat,
    ) {
        VerdictView::Inconclusive {
            reason: if s.distinct_unnormalized_families < floor {
                Shortfall::TooFewFamilies
            } else {
                Shortfall::TooConcentrated
            },
            families: s.distinct_unnormalized_families,
            family_names: family_names_of(s),
            floor,
            largest_family_books: s.largest_family_books,
            unnormalized_books: s.unnormalized_books,
            normalized: s.normalized,
            total: s.total,
        }
    } else {
        VerdictView::Qualifying { families: s.distinct_unnormalized_families, family_names: family_names_of(s), total: s.total }
    }
}

/// The finding, in words that cannot be misread as something stronger.
pub open spec fn rendered(v: VerdictView) -> Seq<char> {
    match v {
        VerdictView::Disqualifying { failures, total } => "DISQUALIFYING — "@ + decimal(failures as nat) + " of "@
            + decimal(total as nat) + " books lost entry content.\n"@
            + "Decisive regardless of corpus quality: a normalized corpus is the\n"@
            + "easy case, and the reader failed it. ADR-F011 resolves against\n"@
            + "rbook; futhark-epub becomes a bespoke build over quick-xml."@,
        VerdictView::Inconclusive { reason, families, family_names, floor, largest_family_books, unnormalized_books, normalized, total } =>
            "INCONCLUSIVE — no entry-content divergence, but this corpus cannot\n"@ + "support adoption. "@
            + decimal(normalized as nat) + " of "@ + decimal(total as nat) + " files show normalization\n"@
            + "evidence, leaving "@ + decimal(families as nat) + " distinct un-normalized\n"@
            + "producer family(ies) against a floor of "@ + decimal(floor as nat) + match reason {
                Shortfall::TooFewFamilies => "."@,
                Shortfall::TooConcentrated => "; the largest holds "@ + decimal(largest_family_books as nat)
                    + " of "@ + decimal(unnormalized_books as nat) + " books,\n"@ + "more than one family may hold."@,
            } + "\nfamilies counted: "@ + names_text(family_names) + "\n\n"@
            + "A manager's writer strips exactly what breaks parsers, so this run\n"@
            + "screened the easy population and found nothing. That is not the\n"@
            + "same as passing (ADR-F047). ADR-F011 stays open pending a corpus\n"@
            + "with real producer diversity."@,
        VerdictView::Qualifying { families, family_names, total } => "QUALIFYING — no entry-content divergence across "@
            + decimal(total as nat) + " books from\n"@ + decimal(families as nat)
            + " distinct un-normalized producer families: "@ + names_text(family_names) + ". This\n"@
            + "result can support confirming ADR-F011."@,
        VerdictView::NothingMeasured => "NOTHING MEASURED — the corpus was empty. This is not a pass; "@
            + "zero failures out of zero books is not evidence."@,
    }
}

/// The families counted, joined by a comma and a space, or `(none)`.
pub open spec fn names_text(names: Seq<Seq<char>>) -> Seq<char> {
    if names.len() == 0 { "(none)"@ } else { joined_ids(names) }
}

/// Append the families counted.
fn push_names(s: &mut String, names: &Vec<String>)
    ensures
        final(s)@ == old(s)@ + names_text(string_views(names@)),
{
    if names.len() == 0 {
        s.append("(none)");
        return;
    }
    let ghost start = s@;
    let ghost ids = string_views(names@);
    let mut i: usize = 0;
    assert(ids.take(0) =~= Seq::<Seq<char>>::empty());
    while i < names.len()
        invariant
            ids == string_views(names@),
            i <= names@.len(),
            s@ == start + joined_ids(ids.take(i as int)),
        decreases names@.len() - i,
    {
        if i > 0 {
            s.append(", ");
        }
        s.append(names[i].as_str());
        proof {
            let t = ids.take(i as int + 1);
            assert(t.drop_last() =~= ids.take(i as int));
            assert(t.last() == names@[i as int]@);
            assert(s@ =~= start + joined_ids(t));
        }
        i = i + 1;
    }
    assert(ids.take(names@.len() as int) =~= ids);
}

/// The families of a summary, named, in key order.
fn family_names(s: &Summary) -> (v: Vec<String>)
    ensures
        string_views(v@) == family_names_of(*s),
{
    let u = sort_tally(&s.unnormalized_families);
    let ghost uv = tally_view(u@);
    let mut v: Vec<String> = Vec::new();
    let mut i: usize = 0;
    while i < u.len()
        invariant
            uv == tally_view(u@),
            i <= u@.len(),
            string_views(v@) == keys_of(uv).take(i as int),
        decreases u@.len() - i,
    {
        let ghost before = v@;
        let k = u[i].0.clone();
        assert(uv[i as int] == (u@[i as int].0@, u@[i as int].1 as nat));
        assert(k@ == uv[i as int].0);
        v.push(k);
        assert(string_views(v@) =~= string_views(before).push(k@));
        assert(string_views(v@) =~= keys_of(uv).take(i as int + 1));
        i = i + 1;
    }
    assert(keys_of(uv).take(u@.len() as int) =~= keys_of(uv));
    v
}

/// Whether one family holds more than the allowed share of the population.
pub fn is_concentrated(largest: usize, population: usize) -> (b: bool)
    ensures
        b == concentrated(largest as nat, population as nat),
{
    (largest as u128) * 100 > (MAX_FAMILY_SHARE_PCT as u128) * (population as u128)
}

impl Verdict {
    /// Read a summary against the screening/qualifying asymmetry.
    pub fn judge(summary: &Summary, family_floor: usize) -> (v: Verdict)
        ensures
            v@ == verdict_for(*summary, family_floor),
    {
        let s = summary;
        if s.total == 0 {
            return Verdict::NothingMeasured;
        }
        if (s.lossless as u128) * 100 < (LOSSLESS_THRESHOLD_PCT as u128) * (s.total as u128) {
            return Verdict::Disqualifying { failures: s.entry_content_failures, total: s.total };
        }
        let too_few = s.distinct_unnormalized_families < family_floor;
        let too_big = is_concentrated(s.largest_family_books, s.unnormalized_books);
        if too_few || too_big {
            return Verdict::Inconclusive {
                reason: if too_few {
                    Shortfall::TooFewFamilies
                } else {
                    Shortfall::TooConcentrated
                },
                families: s.distinct_unnormalized_families,
                family_names: family_names(s),
                floor: family_floor,
                largest_family_books: s.largest_family_books,
                unnormalized_books: s.unnormalized_books,
                normalized: s.normalized,
                total: s.total,
            };
        }
        Verdict::Qualifying { families: s.distinct_unnormalized_families, family_names: family_names(s), total: s.total }
    }

    /// Whether this result may be cited in support of adopting the reader.
    /// Only one variant can.
    pub fn supports_adoption(&self) -> (b: bool)
        ensures
            b == (*self is Qualifying),
    {
        matches!(self, Verdict::Qualifying { .. })
    }

    /// Whether the reader decision can be resolved on this evidence, either
    /// way.
    pub fn resolves_adr_f011(&self) -> (b: bool)
        ensures
            b == (*self is Disqualifying || *self is Qualifying),
    {
        matches!(self, Verdict::Disqualifying { .. } | Verdict::Qualifying { .. })
    }

    /// The finding, stated so it cannot be misread as something stronger.
    pub fn render(&self) -> (s: String)
        ensures
            s@ == rendered(self@),
    {
        match self {
            Verdict::Disqualifying { failures, total } => {
                let mut s = "DISQUALIFYING — ".to_owned();
                push_decimal(&mut s, *failures as u64);
                s.append(" of ");
                push_decimal(&mut s, *total as u64);
                s.append(" books lost entry content.\n");
                s.append("Decisive regardless of corpus quality: a normalized corpus is the\n");
                s.append("easy case, and the reader failed it. ADR-F011 resolves against\n");
                s.append("rbook; futhark-epub becomes a bespoke build over quick-xml.");
                s
            },
            Verdict::Inconclusive { reason, families, family_names, floor, largest_family_books, unnormalized_books, normalized, total } => {
                let mut s = "INCONCLUSIVE — no entry-content divergence, but this corpus cannot\n".to_owned();
                s.append("support adoption. ");
                push_decimal(&mut s, *normalized as u64);
                s.append(" of ");
                push_decimal(&mut s, *total as u64);
                s.append(" files show normalization\n");
                s.append("evidence, leaving ");
                push_decimal(&mut s, *families as u64);
                s.append(" distinct un-normalized\n");
                s.append("producer family(ies) against a floor of ");
                push_decimal(&mut s, *floor as u64);
                match reason {
                    Shortfall::TooFewFamilies => {
                        s.append(".");
                    },
                    Shortfall::TooConcentrated => {
                        s.append("; the largest holds ");
                        push_decimal(&mut s, *largest_family_books as u64);
                        s.append(" of ");
                        push_decimal(&mut s, *unnormalized_books as u64);
                        s.append(" books,\n");
                        s.append("more than one family may hold.");
                    },
                }
                s.append("\nfamilies counted: ");
                push_names(&mut s, family_names);
                s.append("\n\n");
                s.append("A manager's writer strips exactly what breaks parsers, so this run\n");
                s.append("screened the easy population and found nothing. That is not the\n");
                s.append("same as passing (ADR-F047). ADR-F011 stays open pending a corpus\n");
                s.append("with real producer diversity.");
                s
            },
            Verdict::Qualifying { families, family_names, total } => {
                let mut s = "QUALIFYING — no entry-content divergence across ".to_owned();
                push_decimal(&mut s, *total as u64);
                s.append(" books from\n");
                push_decimal(&mut s, *families as u64);
                s.append(" distinct un-normalized producer families: ");
                push_names(&mut s, family_names);
                s.append(". This\n");
                s.append("result can support confirming ADR-F011.");
                s
            },
            Verdict::NothingMeasured => {
                let mut s = "NOTHING MEASURED — the corpus was empty. This is not a pass; ".to_owned();
                s.append("zero failures out of zero books is not evidence.");
                s
            },
        }
    }
}

// ---------------------------------------------------------------------------
// Laws
// ---------------------------------------------------------------------------

/// Only a result that resolves the reader decision can support adoption.
pub proof fn law_adoption_implies_resolution(s: Summary, floor: usize)
    ensures
        verdict_for(s, floor) is Qualifying ==> (verdict_for(s, floor) is Disqualifying || verdict_for(s, floor) is Qualifying),
{
}

/// A qualifying verdict is one that clears every gate: something was
/// measured, enough of it was lossless, the families reach the floor, and no
/// family holds more than its share.
pub proof fn law_qualifying_clears_every_gate(s: Summary, floor: usize)
    ensures
        verdict_for(s, floor) is Qualifying <==> (s.total > 0 && clean_enough(s.lossless as nat, s.total as nat)
            && s.distinct_unnormalized_families >= floor && !concentrated(
            s.largest_family_books as nat,
            s.unnormalized_books as nat,
        )),
{
}

/// Failure is decisive on any corpus: once too many books lose entry content,
/// the verdict resolves the question against the reader, normalized or not.
pub proof fn law_failure_is_decisive(s: Summary, floor: usize)
    requires
        s.total > 0,
        !clean_enough(s.lossless as nat, s.total as nat),
    ensures
        verdict_for(s, floor) is Disqualifying,
        !(verdict_for(s, floor) is Qualifying),
{
}

/// Nothing measured is never a pass.
pub proof fn law_an_empty_corpus_is_not_a_pass(s: Summary, floor: usize)
    requires
        s.total == 0,
    ensures
        verdict_for(s, floor) == VerdictView::NothingMeasured,
{
}

/// A clean run on a corpus where every file was rewritten by a manager is
/// never a pass: it has no un-normalized families, so with any floor above
/// zero it cannot support adoption.
pub proof fn law_normalized_corpus_never_supports_adoption(rs: Seq<Record>, s: Summary, floor: usize)
    requires
        summarises(s, rs),
        floor > 0,
        forall|i: int| 0 <= i < rs.len() ==> is_normalized(#[trigger] rs[i]),
    ensures
        !(verdict_for(s, floor) is Qualifying),
{
    lemma_no_families(rs);
    assert(crate::manifest::tally(Seq::<Seq<char>>::empty()) =~= Seq::<(Seq<char>, nat)>::empty());
}

proof fn lemma_no_families(rs: Seq<Record>)
    requires
        forall|i: int| 0 <= i < rs.len() ==> is_normalized(#[trigger] rs[i]),
    ensures
        family_keys(rs) == Seq::<Seq<char>>::empty(),
    decreases rs.len(),
{
    if rs.len() > 0 {
        assert forall|i: int| 0 <= i < rs.drop_last().len() implies is_normalized(#[trigger] rs.drop_last()[i]) by {
            assert(rs.drop_last()[i] == rs[i]);
        }
        lemma_no_families(rs.drop_last());
        assert(is_normalized(rs[rs.len() - 1]));
        assert(family_keys(rs) =~= Seq::<Seq<char>>::empty());
    }
}

} // verus!
