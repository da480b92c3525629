//! The result manifest — the publishable artifact.
//!
//! For each book: what it was, who produced it, and how the round-trip
//! diverged. Nothing here carries book content: hashes, counts, class names
//! and byte-length deltas only.

use vstd::prelude::*;
use crate::classify::div_views;
use crate::family::{classify as family_classify, family_of, UNDECLARED};
use crate::producer::string_views;
use crate::roundtrip::Outcome;
use crate::taxonomy::{
    bears, class_at, class_at_exec, class_rank, slug_of, Class, Divergence, CLASSIFIER_VERSION, TAXONOMY_FROZEN,
};
use crate::text::{opt_view, str_eq};
use crate::report::{in_key_order, keys_ascending, law_key_order_sorts, sort_tally};

verus! {

// ---------------------------------------------------------------------------
// Tallies
// ---------------------------------------------------------------------------

/// A tally after one more occurrence of `k`.
pub open spec fn bump(t: Seq<(Seq<char>, nat)>, k: Seq<char>) -> Seq<(Seq<char>, nat)> {
    if exists|i: int| 0 <= i < t.len() && (#[trigger] t[i]).0 == k {
        let i = choose|i: int| 0 <= i < t.len() && (#[trigger] t[i]).0 == k;
        t.update(i, (k, t[i].1 + 1))
    } else {
        t.push((k, 1nat))
    }
}

/// How often each key occurs, keys in order of first occurrence.
pub open spec fn tally(keys: Seq<Seq<char>>) -> Seq<(Seq<char>, nat)>
    decreases keys.len(),
{
    if keys.len() == 0 {
        Seq::empty()
    } else {
        bump(tally(keys.drop_last()), keys.last())
    }
}

/// No key occurs twice.
pub open spec fn keys_distinct(t: Seq<(Seq<char>, nat)>) -> bool {
    forall|i: int, j: int| 0 <= i < j < t.len() ==> (#[trigger] t[i]).0 != (#[trigger] t[j]).0
}

/// The view of an executable tally.
pub open spec fn tally_view(v: Seq<(String, usize)>) -> Seq<(Seq<char>, nat)> {
    Seq::new(v.len(), |i: int| (v[i].0@, v[i].1 as nat))
}

/// A tally has distinct keys, and no count exceeds the number of keys counted.
pub proof fn lemma_tally_shape(keys: Seq<Seq<char>>)
    ensures
        keys_distinct(tally(keys)),
        forall|i: int| 0 <= i < tally(keys).len() ==> (#[trigger] tally(keys)[i]).1 <= keys.len(),
        tally(keys).len() <= keys.len(),
    decreases keys.len(),
{
    if keys.len() > 0 {
        lemma_tally_shape(keys.drop_last());
        let t = tally(keys.drop_last());
        let k = keys.last();
        if exists|i: int| 0 <= i < t.len() && (#[trigger] t[i]).0 == k {
            let i = choose|i: int| 0 <= i < t.len() && (#[trigger] t[i]).0 == k;
            let u = t.update(i, (k, t[i].1 + 1));
            assert forall|a: int, b: int| 0 <= a < b < u.len() implies (#[trigger] u[a]).0 != (#[trigger] u[b]).0 by {
                assert(t[a].0 != t[b].0);
            }
        } else {
            let u = t.push((k, 1nat));
            assert forall|a: int, b: int| 0 <= a < b < u.len() implies (#[trigger] u[a]).0 != (#[trigger] u[b]).0 by {
                if b < t.len() {
                    assert(t[a].0 != t[b].0);
                } else {
                    assert(u[a] == t[a]);
                }
            }
        }
    }
}

/// Count one more occurrence of `k`.
fn bump_exec(t: &mut Vec<(String, usize)>, k: &str)
    requires
        keys_distinct(tally_view(old(t)@)),
        forall|i: int| 0 <= i < old(t)@.len() ==> (#[trigger] old(t)@[i]).1 < usize::MAX,
    ensures
        tally_view(final(t)@) == bump(tally_view(old(t)@), k@),
{
    let ghost tv = tally_view(t@);
    let mut i: usize = 0;
    while i < t.len()
        invariant
            tv == tally_view(t@),
            t@ == old(t)@,
            keys_distinct(tv),
            forall|m: int| 0 <= m < t@.len() ==> (#[trigger] t@[m]).1 < usize::MAX,
            i <= t@.len(),
            forall|m: int| 0 <= m < i ==> (#[trigger] tv[m]).0 != k@,
        decreases t@.len() - i,
    {
        assert(tv[i as int] == (t@[i as int].0@, t@[i as int].1 as nat));
        if str_eq(t[i].0.as_str(), k) {
            proof {
                assert(0 <= i < tv.len() && tv[i as int].0 == k@);
                let c = choose|c: int| 0 <= c < tv.len() && (#[trigger] tv[c]).0 == k@;
                if c != i as int {
                    if c < i { assert(tv[c].0 != k@); } else { assert(tv[i as int].0 != tv[c].0); }
                }
                assert(c == i as int);
                assert(bump(tv, k@) == tv.update(i as int, (k@, tv[i as int].1 + 1)));
            }
            let n = t[i].1 + 1;
            let key = t[i].0.clone();
            t.set(i, (key, n));
            assert(tally_view(t@) =~= tv.update(i as int, (k@, tv[i as int].1 + 1)));
            return;
        }
        i = i + 1;
    }
    t.push((k.to_owned(), 1));
    assert(tally_view(t@) =~= tv.push((k@, 1nat)));
}

/// The number of times a key was counted.
pub proof fn law_tally_counts(keys: Seq<Seq<char>>)
    ensures
        forall|i: int| 0 <= i < tally(keys).len() ==> (#[trigger] tally(keys)[i]).1 == keys.to_multiset().count(
            tally(keys)[i].0,
        ),
        forall|k: Seq<char>| #[trigger] keys.contains(k) ==> exists|i: int| 0 <= i < tally(keys).len() && (#[trigger] tally(keys)[i]).0 == k,
        forall|i: int| 0 <= i < tally(keys).len() ==> keys.contains((#[trigger] tally(keys)[i]).0),
    decreases keys.len(),
{
    broadcast use vstd::seq_lib::group_to_multiset_ensures, vstd::multiset::group_multiset_axioms;
    if keys.len() > 0 {
        let d = keys.drop_last();
        let k = keys.last();
        law_tally_counts(d);
        lemma_tally_shape(d);
        let t = tally(d);
        assert(d.push(k) =~= keys);
        assert(keys.to_multiset() == d.to_multiset().insert(k));
        let u = tally(keys);
        if exists|i: int| 0 <= i < t.len() && (#[trigger] t[i]).0 == k {
            let w = choose|i: int| 0 <= i < t.len() && (#[trigger] t[i]).0 == k;
            assert forall|i: int| 0 <= i < u.len() implies (#[trigger] u[i]).1 == keys.to_multiset().count(u[i].0) by {
                if i != w {
                    assert(t[i].0 != t[w].0 || i == w);
                    if i < w { assert(t[i].0 != t[w].0); } else { assert(t[w].0 != t[i].0); }
                }
            }
            assert forall|x: Seq<char>| #[trigger] keys.contains(x) implies exists|i: int| 0 <= i < u.len() && (#[trigger] u[i]).0 == x by {
                if x == k {
                    assert(u[w].0 == x);
                } else {
                    let j = choose|j: int| 0 <= j < keys.len() && keys[j] == x;
                    assert(d[j] == x);
                    assert(d.contains(x));
                    let i = choose|i: int| 0 <= i < t.len() && (#[trigger] t[i]).0 == x;
                    assert(u[i].0 == x);
                }
            }
            assert forall|i: int| 0 <= i < u.len() implies keys.contains((#[trigger] u[i]).0) by {
                if i == w {
                    assert(keys[keys.len() - 1] == k);
                } else {
                    assert(d.contains(t[i].0));
                    let j = choose|j: int| 0 <= j < d.len() && d[j] == t[i].0;
                    assert(keys[j] == t[i].0);
                }
            }
        } else {
            assert(!d.contains(k)) by {
                if d.contains(k) {
                    let i = choose|i: int| 0 <= i < t.len() && (#[trigger] t[i]).0 == k;
                }
            }
            assert(d.to_multiset().count(k) == 0);
            assert forall|i: int| 0 <= i < u.len() implies (#[trigger] u[i]).1 == keys.to_multiset().count(u[i].0) by {
                if i < t.len() {
                    assert(u[i] == t[i]);
                    assert(t[i].0 != k) by {
                        if t[i].0 == k {
                            assert(0 <= i < t.len() && t[i].0 == k);
                        }
                    }
                }
            }
            assert forall|x: Seq<char>| #[trigger] keys.contains(x) implies exists|i: int| 0 <= i < u.len() && (#[trigger] u[i]).0 == x by {
                if x == k {
                    assert(u[t.len() as int].0 == x);
                } else {
                    let j = choose|j: int| 0 <= j < keys.len() && keys[j] == x;
                    assert(d[j] == x);
                    assert(d.contains(x));
                    let i = choose|i: int| 0 <= i < t.len() && (#[trigger] t[i]).0 == x;
                    assert(u[i].0 == x);
                }
            }
            assert forall|i: int| 0 <= i < u.len() implies keys.contains((#[trigger] u[i]).0) by {
                if i == t.len() {
                    assert(keys[keys.len() - 1] == k);
                } else {
                    assert(u[i] == t[i]);
                    assert(d.contains(t[i].0));
                    let j = choose|j: int| 0 <= j < d.len() && d[j] == t[i].0;
                    assert(keys[j] == t[i].0);
                }
            }
        }
    }
}

// ---------------------------------------------------------------------------
// Records
// ---------------------------------------------------------------------------

/// Which corpus tier a record came from.
#[derive(Debug, Clone, Copy, PartialEq, Eq, Structural)]
pub enum Tier {
    /// Redistributable, in the repository.
    A,
    /// The developer's own library. Never committed; referenced by hash.
    B,
}

/// One book's result.
#[derive(Debug, Clone)]
pub struct Record {
    /// SHA-256 of the source file. The book's identity, not its content.
    pub source_hash: String,
    /// Size in bytes, as a weak sanity check alongside the hash.
    pub source_bytes: u64,
    /// Which tier this file came from.
    pub tier: Tier,
    /// Path, for Tier A only. Tier B is identified by hash alone.
    pub path: Option<String>,
    /// Producer string as declared by the package, if any. Self-reported and
    /// overwritable: read it together with `normalized_by`.
    pub producer: Option<String>,
    /// Evidence the file was rewritten by a manager. Empty means none found.
    pub normalized_by: Vec<String>,
    /// EPUB version declared in the package document, if readable.
    pub epub_version: Option<String>,
    /// Number of archive entries in the source.
    pub entry_count: usize,
    /// Every divergence observed.
    pub divergences: Vec<Divergence>,
    /// What the reader did when pointed at this book; `None` when the file was
    /// only scanned, not round-tripped.
    pub outcome: Option<Outcome>,
    /// The instrument that produced this record.
    pub classifier_version: String,
}

/// Whether a record shows evidence of having been rewritten by a manager.
pub open spec fn is_normalized(r: Record) -> bool {
    r.normalized_by@.len() > 0
}

/// Whether the reader was pointed at the book and produced nothing to
/// compare.
pub open spec fn no_output(r: Record) -> bool {
    r.outcome matches Some(o) && !(o is RoundTripped)
}

/// Whether a book round-tripped losslessly: something was produced, and no
/// divergence bears on losslessness.
pub open spec fn is_lossless(r: Record) -> bool {
    !no_output(r) && forall|i: int| 0 <= i < r.divergences@.len() ==> !bears((#[trigger] r.divergences@[i]).class)
}

/// Whether some divergence of a record is of class `c`.
pub open spec fn has_class(r: Record, c: Class) -> bool {
    exists|i: int| 0 <= i < r.divergences@.len() && (#[trigger] r.divergences@[i]).class == c
}

/// The classes present among the first `k` classes, in class order.
pub open spec fn classes_upto(r: Record, k: int) -> Seq<Class>
    decreases k,
{
    if k <= 0 {
        Seq::empty()
    } else {
        classes_upto(r, k - 1) + if has_class(r, class_at(k - 1)) { seq![class_at(k - 1)] } else { Seq::empty() }
    }
}

impl Record {
    /// Whether this file shows evidence of having been rewritten by a
    /// manager. Only un-normalized files carry a trustworthy producer string.
    pub fn normalized(&self) -> (b: bool)
        ensures
            b == is_normalized(*self),
    {
        self.normalized_by.len() > 0
    }

    /// Whether this book round-tripped losslessly. A reader that could not
    /// open, write, or survive the file is not lossless — it produced nothing
    /// to compare.
    pub fn lossless(&self) -> (b: bool)
        ensures
            b == is_lossless(*self),
    {
        match &self.outcome {
            Some(o) => {
                if !o.produced_output() {
                    return false;
                }
            },
            None => {},
        }
        let mut i: usize = 0;
        while i < self.divergences.len()
            invariant
                !no_output(*self),
                i <= self.divergences@.len(),
                forall|k: int| 0 <= k < i ==> !bears((#[trigger] self.divergences@[k]).class),
            decreases self.divergences@.len() - i,
        {
            if self.divergences[i].class.bears_on_losslessness() {
                return false;
            }
            i = i + 1;
        }
        true
    }

    /// Whether some divergence is of class `c`.
    fn has(&self, c: Class) -> (b: bool)
        ensures
            b == has_class(*self, c),
    {
        let mut i: usize = 0;
        while i < self.divergences.len()
            invariant
                i <= self.divergences@.len(),
                forall|k: int| 0 <= k < i ==> (#[trigger] self.divergences@[k]).class != c,
            decreases self.divergences@.len() - i,
        {
            if self.divergences[i].class == c {
                return true;
            }
            i = i + 1;
        }
        false
    }

    /// Classes present, each once, in class order.
    pub fn classes(&self) -> (v: Vec<Class>)
        ensures
            v@ == classes_upto(*self, 17),
    {
        let mut v: Vec<Class> = Vec::new();
        let mut k: usize = 0;
        while k < 17
            invariant
                k <= 17,
                v@ == classes_upto(*self, k as int),
            decreases 17 - k,
        {
            let c = class_at_exec(k);
            if self.has(c) {
                v.push(c);
            }
            k = k + 1;
        }
        v
    }
}

/// The classes a record reports are each present, each once, in class
/// order, and every class present is among them.
pub proof fn law_record_classes(r: Record)
    ensures
        forall|i: int, j: int| 0 <= i < j < classes_upto(r, 17).len() ==> class_rank(
            #[trigger] classes_upto(r, 17)[i],
        ) < class_rank(#[trigger] classes_upto(r, 17)[j]),
        forall|i: int| 0 <= i < classes_upto(r, 17).len() ==> has_class(r, #[trigger] classes_upto(r, 17)[i]),
        forall|c: Class| has_class(r, c) ==> classes_upto(r, 17).contains(c),
{
    lemma_classes_upto(r, 17);
    assert forall|c: Class| has_class(r, c) implies classes_upto(r, 17).contains(c) by {
        crate::taxonomy::lemma_rank_position(c);
    }
}

proof fn lemma_classes_upto(r: Record, k: int)
    requires
        0 <= k <= 17,
    ensures
        forall|i: int, j: int| 0 <= i < j < classes_upto(r, k).len() ==> class_rank(#[trigger] classes_upto(r, k)[i])
            < class_rank(#[trigger] classes_upto(r, k)[j]),
        forall|i: int| 0 <= i < classes_upto(r, k).len() ==> has_class(r, #[trigger] classes_upto(r, k)[i]) && class_rank(
            classes_upto(r, k)[i],
        ) < k,
        forall|c: Class| has_class(r, c) && class_rank(c) < k ==> classes_upto(r, k).contains(c),
    decreases k,
{
    if k > 0 {
        lemma_classes_upto(r, k - 1);
        let p = classes_upto(r, k - 1);
        let q = classes_upto(r, k);
        let c = class_at(k - 1);
        assert(class_rank(c) == k - 1);
        assert forall|i: int| 0 <= i < q.len() implies has_class(r, #[trigger] q[i]) && class_rank(q[i]) < k by {
            if i < p.len() {
                assert(q[i] == p[i]);
            }
        }
        assert forall|i: int, j: int| 0 <= i < j < q.len() implies class_rank(#[trigger] q[i]) < class_rank(#[trigger] q[j]) by {
            if j < p.len() {
                assert(q[i] == p[i] && q[j] == p[j]);
            } else {
                assert(q[i] == p[i]);
            }
        }
        assert forall|x: Class| has_class(r, x) && class_rank(x) < k implies q.contains(x) by {
            if class_rank(x) < k - 1 {
                assert(p.contains(x));
                let w = choose|w: int| 0 <= w < p.len() && p[w] == x;
                assert(q[w] == x);
            } else {
                crate::taxonomy::lemma_rank_position(x);
                assert(x == c);
                assert(q[p.len() as int] == x);
            }
        }
    }
}

// ---------------------------------------------------------------------------
// The run
// ---------------------------------------------------------------------------

/// The whole run.
#[derive(Debug, Clone)]
pub struct Manifest {
    /// Instrument version, repeated at the top for readers who never open a
    /// record.
    pub classifier_version: String,
    /// When the taxonomy was frozen.
    pub taxonomy_frozen: String,
    /// One entry per book.
    pub records: Vec<Record>,
}

/// Aggregate view of a run. Shares are kept as the counts they are made of:
/// the lossless share is `lossless` of `total`, the largest family's share is
/// `largest_family_books` of `unnormalized_books`.
#[derive(Debug, Clone)]
pub struct Summary {
    /// Books examined.
    pub total: usize,
    /// Books with no entry-content divergence.
    pub lossless: usize,
    /// Lossless, but with container-level divergence worth reporting.
    pub container_only: usize,
    /// Books that failed on entry content.
    pub entry_content_failures: usize,
    /// Distinct producer strings across every file.
    pub distinct_producers: usize,
    /// Files carrying at least one normalization signal.
    pub normalized: usize,
    /// Distinct producer strings among un-normalized files.
    pub distinct_unnormalized_producers: usize,
    /// Distinct producer families among un-normalized files — what the
    /// coverage gate reads.
    pub distinct_unnormalized_families: usize,
    /// Books in the largest producer family among un-normalized files.
    pub largest_family_books: usize,
    /// Un-normalized books: the population the largest family is a share of.
    pub unnormalized_books: usize,
    /// Books affected per class, every class present. Each tally here is in
    /// ascending key order.
    pub by_class: Vec<(String, usize)>,
    /// Books per producer, all files.
    pub producers: Vec<(String, usize)>,
    /// Books per producer string, un-normalized files only.
    pub unnormalized_producers: Vec<(String, usize)>,
    /// Books per producer family, un-normalized files only.
    pub unnormalized_families: Vec<(String, usize)>,
    /// How often each normalization signal fired.
    pub normalization_signals: Vec<(String, usize)>,
}

/// The producer a record counts under.
pub open spec fn producer_name(r: Record) -> Seq<char> {
    match opt_view(r.producer) {
        Some(p) => p,
        None => UNDECLARED@,
    }
}

/// The producer family a record counts under.
pub open spec fn family_name(r: Record) -> Seq<char> {
    family_of(opt_view(r.producer))
}

/// Every record's producer, in order.
pub open spec fn producer_keys(rs: Seq<Record>) -> Seq<Seq<char>> {
    Seq::new(rs.len(), |i: int| producer_name(rs[i]))
}

/// Producers of un-normalized records, in order.
pub open spec fn unnormalized_producer_keys(rs: Seq<Record>) -> Seq<Seq<char>>
    decreases rs.len(),
{
    if rs.len() == 0 {
        Seq::empty()
    } else {
        unnormalized_producer_keys(rs.drop_last()) + if is_normalized(rs.last()) {
            Seq::empty()
        } else {
            seq![producer_name(rs.last())]
        }
    }
}

/// Families of un-normalized records, in order.
pub open spec fn family_keys(rs: Seq<Record>) -> Seq<Seq<char>>
    decreases rs.len(),
{
    if rs.len() == 0 {
        Seq::empty()
    } else {
        family_keys(rs.drop_last()) + if is_normalized(rs.last()) { Seq::empty() } else { seq![family_name(rs.last())] }
    }
}

/// Normalization signals of normalized records, in order.
pub open spec fn signal_keys(rs: Seq<Record>) -> Seq<Seq<char>>
    decreases rs.len(),
{
    if rs.len() == 0 {
        Seq::empty()
    } else {
        signal_keys(rs.drop_last()) + if is_normalized(rs.last()) {
            string_views(rs.last().normalized_by@)
        } else {
            Seq::empty()
        }
    }
}

/// Lossless records.
pub open spec fn count_lossless(rs: Seq<Record>) -> nat
    decreases rs.len(),
{
    if rs.len() == 0 { 0 } else { count_lossless(rs.drop_last()) + if is_lossless(rs.last()) { 1nat } else { 0nat } }
}

/// Lossless records that still diverged at container level.
pub open spec fn count_container_only(rs: Seq<Record>) -> nat
    decreases rs.len(),
{
    if rs.len() == 0 {
        0
    } else {
        count_container_only(rs.drop_last()) + if is_lossless(rs.last()) && rs.last().divergences@.len() > 0 {
            1nat
        } else {
            0nat
        }
    }
}

/// Normalized records.
pub open spec fn count_normalized(rs: Seq<Record>) -> nat
    decreases rs.len(),
{
    if rs.len() == 0 { 0 } else { count_normalized(rs.drop_last()) + if is_normalized(rs.last()) { 1nat } else { 0nat } }
}

/// Records with a divergence of class `c`.
pub open spec fn books_with(rs: Seq<Record>, c: Class) -> nat
    decreases rs.len(),
{
    if rs.len() == 0 { 0 } else { books_with(rs.drop_last(), c) + if has_class(rs.last(), c) { 1nat } else { 0nat } }
}

/// The largest count of a tally, or 0.
pub open spec fn max_count(t: Seq<(Seq<char>, nat)>) -> nat
    decreases t.len(),
{
    if t.len() == 0 {
        0
    } else {
        let m = max_count(t.drop_last());
        if t.last().1 > m { t.last().1 } else { m }
    }
}

/// Every class's slug with the number of books it affects, in class order.
pub open spec fn class_histogram(rs: Seq<Record>) -> Seq<(Seq<char>, nat)> {
    Seq::new(17, |k: int| (slug_of(class_at(k)), books_with(rs, class_at(k))))
}

/// Whether `s` is the summary of `rs`.
pub open spec fn summarises(s: Summary, rs: Seq<Record>) -> bool {
    &&& s.total == rs.len()
    &&& s.lossless == count_lossless(rs)
    &&& s.container_only == count_container_only(rs)
    &&& s.entry_content_failures == rs.len() - count_lossless(rs)
    &&& s.distinct_producers == tally(producer_keys(rs)).len()
    &&& s.normalized == count_normalized(rs)
    &&& s.distinct_unnormalized_producers == tally(unnormalized_producer_keys(rs)).len()
    &&& s.distinct_unnormalized_families == tally(family_keys(rs)).len()
    &&& s.largest_family_books == max_count(tally(family_keys(rs)))
    &&& s.unnormalized_books == family_keys(rs).len()
    &&& tally_view(s.by_class@) == in_key_order(class_histogram(rs))
    &&& tally_view(s.producers@) == in_key_order(tally(producer_keys(rs)))
    &&& tally_view(s.unnormalized_producers@) == in_key_order(tally(unnormalized_producer_keys(rs)))
    &&& tally_view(s.unnormalized_families@) == in_key_order(tally(family_keys(rs)))
    &&& tally_view(s.normalization_signals@) == in_key_order(tally(signal_keys(rs)))
}

/// Count one more occurrence of `k`, in a tally of at most `bound` keys
/// counted so far.
fn count_key(t: &mut Vec<(String, usize)>, k: &str, Ghost(keys): Ghost<Seq<Seq<char>>>)
    requires
        tally_view(old(t)@) == tally(keys),
        keys.len() < usize::MAX,
    ensures
        tally_view(final(t)@) == tally(keys.push(k@)),
{
    proof {
        lemma_tally_shape(keys);
        assert forall|i: int| 0 <= i < old(t)@.len() implies (#[trigger] old(t)@[i]).1 < usize::MAX by {
            assert(tally(keys)[i].1 == old(t)@[i].1);
        }
        assert(keys.push(k@).drop_last() =~= keys);
    }
    bump_exec(t, k);
}

/// The producer a record counts under.
fn producer_of(r: &Record) -> (p: &str)
    ensures
        p@ == producer_name(*r),
{
    match &r.producer {
        Some(p) => p.as_str(),
        None => UNDECLARED,
    }
}

/// Books per producer, all files.
fn producer_tally(rs: &Vec<Record>) -> (t: Vec<(String, usize)>)
    ensures
        tally_view(t@) == tally(producer_keys(rs@)),
{
    let mut t: Vec<(String, usize)> = Vec::new();
    let mut i: usize = 0;
    assert(producer_keys(rs@.take(0)) =~= Seq::<Seq<char>>::empty());
    assert(tally_view(t@) =~= Seq::<(Seq<char>, nat)>::empty());
    while i < rs.len()
        invariant
            i <= rs@.len(),
            tally_view(t@) == tally(producer_keys(rs@.take(i as int))),
        decreases rs@.len() - i,
    {
        let ghost keys = producer_keys(rs@.take(i as int));
        count_key(&mut t, producer_of(&rs[i]), Ghost(keys));
        assert(producer_keys(rs@.take(i + 1)) =~= keys.push(producer_name(rs@[i as int])));
        i = i + 1;
    }
    assert(rs@.take(rs@.len() as int) =~= rs@);
    t
}

/// Books per producer string, un-normalized files only.
fn unnormalized_producer_tally(rs: &Vec<Record>) -> (t: Vec<(String, usize)>)
    ensures
        tally_view(t@) == tally(unnormalized_producer_keys(rs@)),
{
    let mut t: Vec<(String, usize)> = Vec::new();
    let mut i: usize = 0;
    assert(unnormalized_producer_keys(rs@.take(0)) =~= Seq::<Seq<char>>::empty());
    assert(tally_view(t@) =~= Seq::<(Seq<char>, nat)>::empty());
    while i < rs.len()
        invariant
            i <= rs@.len(),
            unnormalized_producer_keys(rs@.take(i as int)).len() <= i,
            tally_view(t@) == tally(unnormalized_producer_keys(rs@.take(i as int))),
        decreases rs@.len() - i,
    {
        let ghost keys = unnormalized_producer_keys(rs@.take(i as int));
        assert(rs@.take(i + 1).drop_last() =~= rs@.take(i as int));
        assert(rs@.take(i + 1).last() == rs@[i as int]);
        if !rs[i].normalized() {
            count_key(&mut t, producer_of(&rs[i]), Ghost(keys));
            assert(unnormalized_producer_keys(rs@.take(i + 1)) =~= keys.push(producer_name(rs@[i as int])));
        } else {
            assert(unnormalized_producer_keys(rs@.take(i + 1)) =~= keys);
        }
        i = i + 1;
    }
    assert(rs@.take(rs@.len() as int) =~= rs@);
    t
}

/// Books per producer family, un-normalized files only.
fn family_tally(rs: &Vec<Record>) -> (t: Vec<(String, usize)>)
    ensures
        tally_view(t@) == tally(family_keys(rs@)),
{
    let mut t: Vec<(String, usize)> = Vec::new();
    let mut i: usize = 0;
    assert(family_keys(rs@.take(0)) =~= Seq::<Seq<char>>::empty());
    assert(tally_view(t@) =~= Seq::<(Seq<char>, nat)>::empty());
    while i < rs.len()
        invariant
            i <= rs@.len(),
            family_keys(rs@.take(i as int)).len() <= i,
            tally_view(t@) == tally(family_keys(rs@.take(i as int))),
        decreases rs@.len() - i,
    {
        let ghost keys = family_keys(rs@.take(i as int));
        assert(rs@.take(i + 1).drop_last() =~= rs@.take(i as int));
        assert(rs@.take(i + 1).last() == rs@[i as int]);
        let r = &rs[i];
        if !r.normalized() {
            let f = match &r.producer {
                Some(p) => family_classify(Some(p.as_str())),
                None => family_classify(None),
            };
            assert(f@ == family_name(*r));
            count_key(&mut t, f.as_str(), Ghost(keys));
            assert(family_keys(rs@.take(i + 1)) =~= keys.push(family_name(rs@[i as int])));
        } else {
            assert(family_keys(rs@.take(i + 1)) =~= keys);
        }
        i = i + 1;
    }
    assert(rs@.take(rs@.len() as int) =~= rs@);
    t
}

/// Signals of a prefix are no more than the signals of the whole.
proof fn lemma_signal_keys_prefix(rs: Seq<Record>, i: int)
    requires
        0 <= i <= rs.len(),
    ensures
        signal_keys(rs.take(i)).len() <= signal_keys(rs).len(),
    decreases rs.len() - i,
{
    if i < rs.len() {
        lemma_signal_keys_prefix(rs, i + 1);
        assert(rs.take(i + 1).drop_last() =~= rs.take(i));
    } else {
        assert(rs.take(i) =~= rs);
    }
}

/// How often each normalization signal fired.
fn signal_tally(rs: &Vec<Record>) -> (t: Vec<(String, usize)>)
    requires
        signal_keys(rs@).len() < usize::MAX,
    ensures
        tally_view(t@) == tally(signal_keys(rs@)),
{
    let mut t: Vec<(String, usize)> = Vec::new();
    let mut i: usize = 0;
    assert(signal_keys(rs@.take(0)) =~= Seq::<Seq<char>>::empty());
    assert(tally_view(t@) =~= Seq::<(Seq<char>, nat)>::empty());
    while i < rs.len()
        invariant
            i <= rs@.len(),
            signal_keys(rs@).len() < usize::MAX,
            tally_view(t@) == tally(signal_keys(rs@.take(i as int))),
        decreases rs@.len() - i,
    {
        let ghost keys = signal_keys(rs@.take(i as int));
        assert(rs@.take(i + 1).drop_last() =~= rs@.take(i as int));
        assert(rs@.take(i + 1).last() == rs@[i as int]);
        proof {
            lemma_signal_keys_prefix(rs@, i + 1);
        }
        let r = &rs[i];
        if r.normalized() {
            let ghost sv = string_views(r.normalized_by@);
            let mut j: usize = 0;
            assert(keys + sv.take(0) =~= keys);
            while j < r.normalized_by.len()
                invariant
                    sv == string_views(r.normalized_by@),
                    j <= sv.len(),
                    (keys + sv).len() <= signal_keys(rs@).len(),
                    signal_keys(rs@).len() < usize::MAX,
                    tally_view(t@) == tally(keys + sv.take(j as int)),
                decreases sv.len() - j,
            {
                count_key(&mut t, r.normalized_by[j].as_str(), Ghost(keys + sv.take(j as int)));
                assert((keys + sv.take(j as int)).push(sv[j as int]) =~= keys + sv.take(j + 1));
                j = j + 1;
            }
            assert(sv.take(sv.len() as int) =~= sv);
            assert(signal_keys(rs@.take(i + 1)) =~= keys + sv);
        } else {
            assert(signal_keys(rs@.take(i + 1)) =~= keys);
        }
        i = i + 1;
    }
    assert(rs@.take(rs@.len() as int) =~= rs@);
    t
}

/// Records with a divergence of class `c`.
fn books_with_exec(rs: &Vec<Record>, c: Class) -> (n: usize)
    ensures
        n == books_with(rs@, c),
{
    let mut n: usize = 0;
    let mut i: usize = 0;
    assert(rs@.take(0) =~= Seq::<Record>::empty());
    while i < rs.len()
        invariant
            i <= rs@.len(),
            n == books_with(rs@.take(i as int), c),
            n <= i,
        decreases rs@.len() - i,
    {
        assert(rs@.take(i + 1).drop_last() =~= rs@.take(i as int));
        assert(rs@.take(i + 1).last() == rs@[i as int]);
        if rs[i].has(c) {
            n = n + 1;
        }
        i = i + 1;
    }
    assert(rs@.take(rs@.len() as int) =~= rs@);
    n
}

/// Every class with the number of books it affects, in class order.
fn histogram(rs: &Vec<Record>) -> (t: Vec<(String, usize)>)
    ensures
        tally_view(t@) == class_histogram(rs@),
{
    let mut t: Vec<(String, usize)> = Vec::new();
    let mut k: usize = 0;
    while k < 17
        invariant
            k <= 17,
            t@.len() == k,
            forall|m: int| 0 <= m < k ==> (#[trigger] tally_view(t@)[m]) == class_histogram(rs@)[m],
        decreases 17 - k,
    {
        let c = class_at_exec(k);
        let n = books_with_exec(rs, c);
        let ghost before = t@;
        t.push((c.slug().to_owned(), n));
        assert forall|m: int| 0 <= m < k + 1 implies (#[trigger] tally_view(t@)[m]) == class_histogram(rs@)[m] by {
            if m < k {
                assert(t@[m] == before[m]);
                assert(tally_view(before)[m] == tally_view(t@)[m]);
            }
        }
        k = k + 1;
    }
    assert(tally_view(t@) =~= class_histogram(rs@));
    t
}

/// The largest count of a tally, or 0.
fn max_count_exec(t: &Vec<(String, usize)>) -> (m: usize)
    ensures
        m == max_count(tally_view(t@)),
{
    let ghost tv = tally_view(t@);
    let mut m: usize = 0;
    let mut i: usize = 0;
    assert(tv.take(0) =~= Seq::<(Seq<char>, nat)>::empty());
    while i < t.len()
        invariant
            tv == tally_view(t@),
            i <= tv.len(),
            m == max_count(tv.take(i as int)),
        decreases tv.len() - i,
    {
        assert(tv.take(i + 1).drop_last() =~= tv.take(i as int));
        assert(tv.take(i + 1).last() == tv[i as int]);
        if t[i].1 > m {
            m = t[i].1;
        }
        i = i + 1;
    }
    assert(tv.take(tv.len() as int) =~= tv);
    m
}

/// Lossless, container-only and normalized record counts.
fn record_counts(rs: &Vec<Record>) -> (c: (usize, usize, usize))
    ensures
        c.0 == count_lossless(rs@),
        c.1 == count_container_only(rs@),
        c.2 == count_normalized(rs@),
{
    let mut lossless: usize = 0;
    let mut container: usize = 0;
    let mut normalized: usize = 0;
    let mut i: usize = 0;
    assert(rs@.take(0) =~= Seq::<Record>::empty());
    while i < rs.len()
        invariant
            i <= rs@.len(),
            lossless == count_lossless(rs@.take(i as int)),
            container == count_container_only(rs@.take(i as int)),
            normalized == count_normalized(rs@.take(i as int)),
            lossless <= i,
            container <= i,
            normalized <= i,
        decreases rs@.len() - i,
    {
        assert(rs@.take(i + 1).drop_last() =~= rs@.take(i as int));
        assert(rs@.take(i + 1).last() == rs@[i as int]);
        let r = &rs[i];
        let l = r.lossless();
        if l {
            lossless = lossless + 1;
            if r.divergences.len() > 0 {
                container = container + 1;
            }
        }
        if r.normalized() {
            normalized = normalized + 1;
        }
        i = i + 1;
    }
    assert(rs@.take(rs@.len() as int) =~= rs@);
    (lossless, container, normalized)
}

/// A lossless count never exceeds the records counted.
proof fn lemma_count_lossless_bound(rs: Seq<Record>)
    ensures
        count_lossless(rs) <= rs.len(),
        family_keys(rs).len() <= rs.len(),
    decreases rs.len(),
{
    if rs.len() > 0 {
        lemma_count_lossless_bound(rs.drop_last());
    }
}

impl Manifest {
    /// An empty manifest stamped with the current instrument.
    pub fn new() -> (m: Manifest)
        ensures
            m.classifier_version@ == CLASSIFIER_VERSION@,
            m.taxonomy_frozen@ == TAXONOMY_FROZEN@,
            m.records@.len() == 0,
    {
        Manifest {
            classifier_version: CLASSIFIER_VERSION.to_owned(),
            taxonomy_frozen: TAXONOMY_FROZEN.to_owned(),
            records: Vec::new(),
        }
    }

    /// Aggregate counts, including classes that occurred zero times — an
    /// absent class and a zero-count class are different claims. Signals are
    /// counted in machine words, so their total must fit in one.
    pub fn summary(&self) -> (s: Summary)
        requires
            signal_keys(self.records@).len() < usize::MAX,
        ensures
            summarises(s, self.records@),
    {
        let rs = &self.records;
        let (lossless, container_only, normalized) = record_counts(rs);
        proof {
            lemma_count_lossless_bound(rs@);
        }
        let producers = producer_tally(rs);
        let unnormalized_producers = unnormalized_producer_tally(rs);
        let unnormalized_families = family_tally(rs);
        let normalization_signals = signal_tally(rs);
        let by_class = histogram(rs);
        let largest = max_count_exec(&unnormalized_families);
        let total = rs.len();
        Summary {
            total,
            lossless,
            container_only,
            entry_content_failures: total - lossless,
            distinct_producers: producers.len(),
            normalized,
            distinct_unnormalized_producers: unnormalized_producers.len(),
            distinct_unnormalized_families: unnormalized_families.len(),
            largest_family_books: largest,
            unnormalized_books: unnormalized_count(rs),
            by_class: sort_tally(&by_class),
            producers: sort_tally(&producers),
            unnormalized_producers: sort_tally(&unnormalized_producers),
            unnormalized_families: sort_tally(&unnormalized_families),
            normalization_signals: sort_tally(&normalization_signals),
        }
    }
}

/// Un-normalized records.
fn unnormalized_count(rs: &Vec<Record>) -> (n: usize)
    ensures
        n == family_keys(rs@).len(),
{
    let mut n: usize = 0;
    let mut i: usize = 0;
    assert(rs@.take(0) =~= Seq::<Record>::empty());
    while i < rs.len()
        invariant
            i <= rs@.len(),
            n == family_keys(rs@.take(i as int)).len(),
            n <= i,
        decreases rs@.len() - i,
    {
        assert(rs@.take(i + 1).drop_last() =~= rs@.take(i as int));
        assert(rs@.take(i + 1).last() == rs@[i as int]);
        if !rs[i].normalized() {
            n = n + 1;
        }
        i = i + 1;
    }
    assert(rs@.take(rs@.len() as int) =~= rs@);
    n
}

impl Default for Manifest {
    fn default() -> (m: Manifest)
        ensures
            m.classifier_version@ == CLASSIFIER_VERSION@,
            m.taxonomy_frozen@ == TAXONOMY_FROZEN@,
            m.records@.len() == 0,
    {
        Manifest::new()
    }
}

/// Classes whose missing fixture is a property of the synthetic writer, not
/// of the instrument: the fixture builder pins timestamps and cannot vary the
/// deflate level, but real libraries carry both freely. So the gap must
/// dissolve on the first real corpus.
pub const CONTINGENT_GAPS: [&'static str; 2] = ["timestamp", "compression-level"];

/// Books below which a zero for a contingent gap says nothing.
pub const CONTINGENT_GAP_MIN_BOOKS: usize = 50;

/// The count a tally holds for `k`: the first entry's, or 0.
pub open spec fn count_of(t: Seq<(Seq<char>, nat)>, k: Seq<char>) -> nat
    decreases t.len(),
{
    if t.len() == 0 {
        0
    } else if t[0].0 == k {
        t[0].1
    } else {
        count_of(t.drop_first(), k)
    }
}

/// The contingent gaps a summary shows undissolved: none below the minimum
/// corpus, else each contingent class that no book exercised.
pub open spec fn undissolved(s: Summary) -> Seq<Seq<char>> {
    if s.total < CONTINGENT_GAP_MIN_BOOKS {
        Seq::empty()
    } else {
        let bc = tally_view(s.by_class@);
        (if count_of(bc, "timestamp"@) == 0 { seq!["timestamp"@] } else { Seq::empty() }) + (if count_of(
            bc,
            "compression-level"@,
        ) == 0 {
            seq!["compression-level"@]
        } else {
            Seq::empty()
        })
    }
}

/// The count a tally holds for `k`.
fn count_in(t: &Vec<(String, usize)>, k: &str) -> (n: usize)
    ensures
        n == count_of(tally_view(t@), k@),
{
    let ghost tv = tally_view(t@);
    let mut i: usize = 0;
    assert(tv.skip(0) =~= tv);
    while i < t.len()
        invariant
            tv == tally_view(t@),
            i <= tv.len(),
            count_of(tv, k@) == count_of(tv.skip(i as int), k@),
        decreases tv.len() - i,
    {
        assert(tv.skip(i as int)[0] == tv[i as int]);
        assert(tv.skip(i as int).drop_first() =~= tv.skip(i + 1));
        if str_eq(t[i].0.as_str(), k) {
            return t[i].1;
        }
        i = i + 1;
    }
    0
}

impl Summary {
    /// Contingent gaps that failed to dissolve: empty below
    /// [`CONTINGENT_GAP_MIN_BOOKS`], because a small corpus that happens not
    /// to exercise a class is the ordinary case.
    pub fn undissolved_contingent_gaps(&self) -> (v: Vec<&'static str>)
        ensures
            crate::archive::str_views(v@) == undissolved(*self),
    {
        let mut v: Vec<&'static str> = Vec::new();
        if self.total < CONTINGENT_GAP_MIN_BOOKS {
            assert(crate::archive::str_views(v@) =~= Seq::<Seq<char>>::empty());
            return v;
        }
        let ghost bc = tally_view(self.by_class@);
        if count_in(&self.by_class, "timestamp") == 0 {
            v.push("timestamp");
        }
        if count_in(&self.by_class, "compression-level") == 0 {
            v.push("compression-level");
        }
        assert(crate::archive::str_views(v@) =~= undissolved(*self));
        v
    }
}

/// Below the minimum corpus no contingent gap is reported, whatever the
/// counts.
pub proof fn law_small_corpus_reports_no_gap(s: Summary)
    requires
        s.total < CONTINGENT_GAP_MIN_BOOKS,
    ensures
        undissolved(s).len() == 0,
{
}

/// Every book is either lossless or an entry-content failure, never both.
pub proof fn law_books_are_lossless_or_failures(s: Summary, rs: Seq<Record>)
    requires
        summarises(s, rs),
    ensures
        s.lossless + s.entry_content_failures == s.total,
        s.container_only <= s.lossless,
        s.normalized + s.unnormalized_books == s.total,
{
    lemma_counts(rs);
}

proof fn lemma_counts(rs: Seq<Record>)
    ensures
        count_lossless(rs) <= rs.len(),
        count_container_only(rs) <= count_lossless(rs),
        count_normalized(rs) + family_keys(rs).len() == rs.len(),
    decreases rs.len(),
{
    if rs.len() > 0 {
        lemma_counts(rs.drop_last());
    }
}

/// The labels of the normalization evidence a container and its
/// surroundings show.
pub open spec fn evidence_labels(a: crate::archive::ArchiveView, sidecar: Option<crate::normalization::Sidecars>) -> Seq<Seq<char>> {
    crate::normalization::signal_labels(crate::normalization::expected_signals(a, sidecar))
}

/// The record a book gets: its identity, what its package declares, the
/// normalization evidence, and what the round-trip showed. A path is kept for
/// Tier A only — Tier B paths are the developer's filesystem and are never
/// published.
pub fn record_for(
    source: &crate::archive::Archive,
    source_hash: String,
    source_bytes: u64,
    tier: Tier,
    path: Option<String>,
    sidecar: Option<crate::normalization::Sidecars>,
    divergences: Vec<Divergence>,
    outcome: Option<Outcome>,
) -> (r: Record)
    ensures
        r.source_hash@ == source_hash@,
        r.source_bytes == source_bytes,
        r.tier == tier,
        opt_view(r.path) == (if tier == Tier::A { opt_view(path) } else { None }),
        opt_view(r.producer) == crate::producer::package_of(source@).producer,
        opt_view(r.epub_version) == crate::producer::package_of(source@).version,
        string_views(r.normalized_by@) == evidence_labels(source@, sidecar),
        r.entry_count == source@.entries.len(),
        div_views(r.divergences@) == div_views(divergences@),
        r.outcome == outcome,
        r.classifier_version@ == CLASSIFIER_VERSION@,
{
    let pkg = crate::producer::read_package(source);
    let labels = crate::normalization::detect(source, sidecar).labels();
    assert(string_views(labels@) =~= evidence_labels(source@, sidecar));
    let path = match tier {
        Tier::A => path,
        Tier::B => None,
    };
    Record {
        source_hash,
        source_bytes,
        tier,
        path,
        producer: pkg.producer,
        normalized_by: labels,
        epub_version: pkg.version,
        entry_count: source.entries.len(),
        divergences,
        outcome,
        classifier_version: CLASSIFIER_VERSION.to_owned(),
    }
}

/// What a round-trip can be compared on: only a produced file. A reader that
/// produced nothing, or a file that could not be read back, yields no
/// divergences — and the outcome says why, so an absent output is never
/// scored as a clean one.
pub fn roundtrip_divergences(source: &crate::archive::Archive, outcome: &Outcome, written: Option<&crate::archive::Archive>) -> (r: Vec<Divergence>)
    ensures
        div_views(r@) == (match written {
            Some(rt) => if *outcome is RoundTripped { crate::classify::classification(source@, rt@) } else { Seq::empty() },
            None => Seq::empty(),
        }),
{
    match written {
        Some(rt) => {
            if outcome.produced_output() {
                return crate::classify::classify(source, rt);
            }
        },
        None => {},
    }
    let v: Vec<Divergence> = Vec::new();
    assert(div_views(v@) =~= Seq::empty());
    v
}

impl Summary {
    /// Whether the un-normalized files name fewer than two producers: then,
    /// whatever the overall producer count says, the corpus measures one
    /// writer.
    pub fn measures_one_writer(&self) -> (b: bool)
        ensures
            b == (self.total > 0 && self.distinct_unnormalized_producers < 2),
    {
        self.total > 0 && self.distinct_unnormalized_producers < 2
    }
}

/// A book the reader refused, could not write back, or panicked on is never
/// counted lossless: it produced nothing to compare, and nothing compared is
/// not the same as nothing lost.
pub proof fn law_a_refusal_is_never_lossless(r: Record)
    ensures
        no_output(r) ==> !is_lossless(r),
{
}

/// The classes' slugs are distinct.
proof fn lemma_slugs_distinct(rs: Seq<Record>)
    ensures
        keys_distinct(class_histogram(rs)),
{
    reveal_strlit("content-byte-diff");
    reveal_strlit("entry-missing");
    reveal_strlit("entry-added");
    reveal_strlit("xml-canonicalization");
    reveal_strlit("text-encoding");
    reveal_strlit("line-endings");
    reveal_strlit("entry-order");
    reveal_strlit("timestamp");
    reveal_strlit("compression-method");
    reveal_strlit("compression-level");
    reveal_strlit("extra-field");
    reveal_strlit("comment");
    reveal_strlit("mimetype-not-first");
    reveal_strlit("mimetype-compressed");
    reveal_strlit("declared-size-mismatch");
    reveal_strlit("manifest-mismatch");
    reveal_strlit("unclassified");
    let h = class_histogram(rs);
    assert forall|i: int, j: int| 0 <= i < j < h.len() implies (#[trigger] h[i]).0 != (#[trigger] h[j]).0 by {
        let a = slug_of(class_at(i));
        let b = slug_of(class_at(j));
        assert(a.len() != b.len() || a[0] != b[0] || a[6] != b[6] || a[9] != b[9] || a[12] != b[12]);
    }
}

/// A summary keeps each of its tallies as a map ordered by key would: keys
/// strictly ascending, each key once, and the entries exactly those counted.
pub proof fn law_summary_tallies_are_in_key_order(s: Summary, rs: Seq<Record>)
    requires
        summarises(s, rs),
    ensures
        keys_ascending(tally_view(s.by_class@)),
        keys_ascending(tally_view(s.producers@)),
        keys_ascending(tally_view(s.unnormalized_producers@)),
        keys_ascending(tally_view(s.unnormalized_families@)),
        keys_ascending(tally_view(s.normalization_signals@)),
        tally_view(s.by_class@).to_multiset() == class_histogram(rs).to_multiset(),
        tally_view(s.producers@).to_multiset() == tally(producer_keys(rs)).to_multiset(),
        tally_view(s.unnormalized_producers@).to_multiset() == tally(unnormalized_producer_keys(rs)).to_multiset(),
        tally_view(s.unnormalized_families@).to_multiset() == tally(family_keys(rs)).to_multiset(),
        tally_view(s.normalization_signals@).to_multiset() == tally(signal_keys(rs)).to_multiset(),
{
    lemma_slugs_distinct(rs);
    lemma_tally_shape(producer_keys(rs));
    lemma_tally_shape(unnormalized_producer_keys(rs));
    lemma_tally_shape(family_keys(rs));
    lemma_tally_shape(signal_keys(rs));
    law_key_order_sorts(class_histogram(rs));
    law_key_order_sorts(tally(producer_keys(rs)));
    law_key_order_sorts(tally(unnormalized_producer_keys(rs)));
    law_key_order_sorts(tally(family_keys(rs)));
    law_key_order_sorts(tally(signal_keys(rs)));
}

} // verus!
