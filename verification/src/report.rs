//! A run summary's counts as a report: the normalization signals, the
//! divergence classes, and the producer tallies, each tally in key order.
//! The shares that head the report are fractions, and stay with whoever
//! prints it; everything else is here.

use vstd::prelude::*;
use crate::classify::str_le;
use crate::manifest::{keys_distinct, tally_view, Summary};
use crate::order::{chars_lt, lemma_chars_lt_chain};
use crate::taxonomy::{class_at, class_at_exec, group_of, slug_of, Group};
use crate::text::{decimal, padded, padded_left, push_decimal, push_padded, push_padded_left, str_eq};

verus! {

// ---------------------------------------------------------------------------
// Key order
// ---------------------------------------------------------------------------

/// Where an entry keyed `k` goes among `u` from `j` on: before the first
/// entry whose key is not below `k`.
pub open spec fn key_pos(u: Seq<(Seq<char>, nat)>, k: Seq<char>, j: int) -> int
    decreases u.len() - j,
{
    if j < 0 || j >= u.len() {
        u.len() as int
    } else if chars_lt(u[j].0, k) {
        key_pos(u, k, j + 1)
    } else {
        j
    }
}

/// A tally's entries in key order, each placed in turn where it belongs.
pub open spec fn in_key_order(t: Seq<(Seq<char>, nat)>) -> Seq<(Seq<char>, nat)>
    decreases t.len(),
{
    if t.len() == 0 {
        Seq::empty()
    } else {
        let u = in_key_order(t.drop_last());
        u.insert(key_pos(u, t.last().0, 0), t.last())
    }
}

/// Keys strictly ascending.
pub open spec fn keys_ascending(u: Seq<(Seq<char>, nat)>) -> bool {
    forall|i: int, j: int| 0 <= i < j < u.len() ==> chars_lt(#[trigger] u[i].0, #[trigger] u[j].0)
}

/// In ascending keys, the place for a new key has smaller keys before it and
/// larger ones from it on.
proof fn lemma_key_pos(u: Seq<(Seq<char>, nat)>, k: Seq<char>, j: int)
    requires
        keys_ascending(u),
        0 <= j <= u.len(),
        forall|m: int| 0 <= m < j ==> chars_lt(#[trigger] u[m].0, k),
        forall|m: int| 0 <= m < u.len() ==> (#[trigger] u[m]).0 != k,
    ensures
        j <= key_pos(u, k, j) <= u.len(),
        forall|m: int| 0 <= m < key_pos(u, k, j) ==> chars_lt(#[trigger] u[m].0, k),
        forall|m: int| key_pos(u, k, j) <= m < u.len() ==> chars_lt(k, #[trigger] u[m].0),
    decreases u.len() - j,
{
    if j < u.len() {
        if chars_lt(u[j].0, k) {
            lemma_key_pos(u, k, j + 1);
        } else {
            lemma_chars_lt_chain(u[j].0, k, k);
            assert(chars_lt(k, u[j].0));
            assert forall|m: int| j <= m < u.len() implies chars_lt(k, #[trigger] u[m].0) by {
                if m > j {
                    assert(chars_lt(u[j].0, u[m].0));
                    lemma_chars_lt_chain(k, u[j].0, u[m].0);
                }
            }
        }
    }
}

/// Putting a tally in key order sorts it and loses nothing: the keys come
/// out strictly ascending, and the entries are the tally's own.
pub proof fn law_key_order_sorts(t: Seq<(Seq<char>, nat)>)
    requires
        keys_distinct(t),
    ensures
        keys_ascending(in_key_order(t)),
        in_key_order(t).to_multiset() == t.to_multiset(),
    decreases t.len(),
{
    broadcast use vstd::seq_lib::group_to_multiset_ensures;
    if t.len() > 0 {
        let s = t.drop_last();
        let x = t.last();
        assert forall|a: int, b: int| 0 <= a < b < s.len() implies (#[trigger] s[a]).0 != (#[trigger] s[b]).0 by {
            assert(t[a] == s[a] && t[b] == s[b]);
        }
        law_key_order_sorts(s);
        let u = in_key_order(s);
        assert forall|m: int| 0 <= m < u.len() implies (#[trigger] u[m]).0 != x.0 by {
            assert(u.to_multiset().count(u[m]) > 0);
            assert(s.contains(u[m]));
            let w = choose|w: int| 0 <= w < s.len() && s[w] == u[m];
            assert(t[w] == s[w]);
            assert(t[t.len() - 1] == x);
        }
        lemma_key_pos(u, x.0, 0);
        let p = key_pos(u, x.0, 0);
        let v = u.insert(p, x);
        assert forall|i: int, j: int| 0 <= i < j < v.len() implies chars_lt(#[trigger] v[i].0, #[trigger] v[j].0) by {
            if j < p {
                assert(v[i] == u[i] && v[j] == u[j]);
            } else if j == p {
                assert(v[i] == u[i]);
            } else if i == p {
                assert(v[j] == u[j - 1]);
            } else if i < p {
                assert(v[i] == u[i] && v[j] == u[j - 1]);
                lemma_chars_lt_chain(u[i].0, x.0, u[j - 1].0);
            } else {
                assert(v[i] == u[i - 1] && v[j] == u[j - 1]);
            }
        }
        assert(v.remove(p) =~= u);
        assert(v.to_multiset().remove(x) == u.to_multiset());
        assert(v.to_multiset().count(x) > 0) by {
            assert(v[p] == x);
            assert(v.contains(x));
        }
        assert(v.to_multiset() =~= u.to_multiset().insert(x));
        assert(t =~= s.push(x));
    }
}

/// Where an entry keyed `k` goes in `u`.
fn position(u: &Vec<(String, usize)>, k: &str) -> (p: usize)
    ensures
        p == key_pos(tally_view(u@), k@, 0),
        p <= u@.len(),
{
    let ghost uv = tally_view(u@);
    let mut j: usize = 0;
    while j < u.len()
        invariant
            uv == tally_view(u@),
            j <= u@.len(),
            key_pos(uv, k@, j as int) == key_pos(uv, k@, 0),
        decreases u@.len() - j,
    {
        assert(uv[j as int].0 == u@[j as int].0@);
        let below = str_le(u[j].0.as_str(), k) && !str_eq(u[j].0.as_str(), k);
        if !below {
            return j;
        }
        j = j + 1;
    }
    j
}

/// A tally in key order.
pub fn sort_tally(t: &Vec<(String, usize)>) -> (u: Vec<(String, usize)>)
    ensures
        tally_view(u@) == in_key_order(tally_view(t@)),
{
    let ghost tv = tally_view(t@);
    let mut u: Vec<(String, usize)> = Vec::new();
    let mut i: usize = 0;
    assert(tv.take(0) =~= Seq::<(Seq<char>, nat)>::empty());
    assert(tally_view(u@) =~= Seq::<(Seq<char>, nat)>::empty());
    while i < t.len()
        invariant
            tv == tally_view(t@),
            i <= t@.len(),
            tally_view(u@) == in_key_order(tv.take(i as int)),
        decreases t@.len() - i,
    {
        let ghost before = tally_view(u@);
        let p = position(&u, t[i].0.as_str());
        let e = (t[i].0.clone(), t[i].1);
        u.insert(p, e);
        proof {
            assert(tv.take(i + 1).drop_last() =~= tv.take(i as int));
            assert(tv.take(i + 1).last() == tv[i as int]);
            assert(tv[i as int] == (t@[i as int].0@, t@[i as int].1 as nat));
            assert(tally_view(u@) =~= before.insert(p as int, tv[i as int]));
        }
        i = i + 1;
    }
    assert(tv.take(t@.len() as int) =~= tv);
    u
}

// ---------------------------------------------------------------------------
// The report
// ---------------------------------------------------------------------------

/// One tally line: the count right-aligned in four columns, then the key.
pub open spec fn tally_line(e: (Seq<char>, nat)) -> Seq<char> {
    "  "@ + padded_left(decimal(e.1), 4) + "  "@ + e.0 + "\n"@
}

/// The lines of the first `k` entries.
pub open spec fn tally_lines(u: Seq<(Seq<char>, nat)>, k: int) -> Seq<char>
    decreases k,
{
    if k <= 0 { Seq::empty() } else { tally_lines(u, k - 1) + tally_line(u[k - 1]) }
}

/// A tally's lines, in key order.
pub open spec fn tally_block(t: Seq<(Seq<char>, nat)>) -> Seq<char> {
    tally_lines(in_key_order(t), in_key_order(t).len() as int)
}

/// The count a tally gives a key: its first entry's, or zero.
pub open spec fn count_of(t: Seq<(Seq<char>, nat)>, k: Seq<char>) -> nat
    decreases t.len(),
{
    if t.len() == 0 { 0 } else if t[0].0 == k { t[0].1 } else { count_of(t.drop_first(), k) }
}

/// The label a class's group carries in the report.
pub open spec fn group_label(g: Group) -> Seq<char> {
    match g {
        Group::EntryContent => "A content "@,
        Group::ContainerMetadata => "B container"@,
        Group::DeclaredActual => "C declared"@,
        Group::Unclassified => "U unnamed "@,
    }
}

/// The report line of class `k`: group, slug, books affected.
pub open spec fn class_line(s: Summary, k: int) -> Seq<char> {
    "  "@ + group_label(group_of(class_at(k))) + "  "@ + padded(slug_of(class_at(k)), 24) + " "@
        + decimal(count_of(tally_view(s.by_class@), slug_of(class_at(k)))) + "\n"@
}

/// The lines of the first `k` classes.
pub open spec fn class_lines(s: Summary, k: int) -> Seq<char>
    decreases k,
{
    if k <= 0 { Seq::empty() } else { class_lines(s, k - 1) + class_line(s, k - 1) }
}

/// What the report says when no file is free of normalization evidence.
pub open spec fn none_unnormalized() -> Seq<char> {
    "  (none — every file shows normalization evidence, so this\n"@
        + "   corpus measures one writer regardless of what the\n"@
        + "   producer strings above say)\n"@
}

/// Everything the summary report shows below its headline shares.
pub open spec fn counts_text(s: Summary) -> Seq<char> {
    (if s.normalized > 0 {
        "normalization signals (R27 — these files' producer strings name the manager):\n"@
            + tally_block(tally_view(s.normalization_signals@)) + "\n"@
    } else {
        Seq::empty()
    }) + "divergence classes (books affected):\n"@ + class_lines(s, 17)
        + "\nproducers (all files):\n"@ + tally_block(tally_view(s.producers@))
        + "\nproducer families among un-normalized files — diversity is read from this:\n"@
        + tally_block(tally_view(s.unnormalized_families@))
        + "\nraw producer strings among un-normalized files:\n"@
        + (if s.unnormalized_producers@.len() == 0 { none_unnormalized() } else { Seq::empty() })
        + tally_block(tally_view(s.unnormalized_producers@))
}

/// Append a tally's lines in key order.
fn push_tally(s: &mut String, t: &Vec<(String, usize)>)
    ensures
        final(s)@ == old(s)@ + tally_block(tally_view(t@)),
{
    let u = sort_tally(t);
    let ghost uv = tally_view(u@);
    let ghost start = s@;
    let mut i: usize = 0;
    while i < u.len()
        invariant
            uv == tally_view(u@),
            i <= u@.len(),
            s@ == start + tally_lines(uv, i as int),
        decreases u@.len() - i,
    {
        s.append("  ");
        let n = decimal_text(u[i].1);
        push_padded_left(s, n.as_str(), 4);
        s.append("  ");
        s.append(u[i].0.as_str());
        s.append("\n");
        assert(uv[i as int] == (u@[i as int].0@, u@[i as int].1 as nat));
        i = i + 1;
        assert(s@ =~= start + tally_lines(uv, i as int));
    }
}

/// A count in decimal.
fn decimal_text(n: usize) -> (t: String)
    ensures
        t@ == decimal(n as nat),
{
    let mut t = String::new();
    push_decimal(&mut t, n as u64);
    assert(t@ =~= decimal(n as nat));
    t
}

/// The count a tally gives a key.
fn count_exec(t: &Vec<(String, usize)>, k: &str) -> (n: usize)
    ensures
        n == count_of(tally_view(t@), k@),
{
    let ghost tv = tally_view(t@);
    let mut i: usize = 0;
    assert(tv.skip(0) =~= tv);
    while i < t.len()
        invariant
            tv == tally_view(t@),
            i <= t@.len(),
            count_of(tv.skip(i as int), k@) == count_of(tv, k@),
        decreases t@.len() - i,
    {
        assert(tv.skip(i as int)[0] == tv[i as int]);
        assert(tv.skip(i as int).drop_first() =~= tv.skip(i + 1));
        if str_eq(t[i].0.as_str(), k) {
            return t[i].1;
        }
        i = i + 1;
    }
    assert(tv.skip(i as int) =~= Seq::<(Seq<char>, nat)>::empty());
    0
}

fn group_label_exec(g: Group) -> (t: &'static str)
    ensures
        t@ == group_label(g),
{
    match g {
        Group::EntryContent => "A content ",
        Group::ContainerMetadata => "B container",
        Group::DeclaredActual => "C declared",
        Group::Unclassified => "U unnamed ",
    }
}

impl Summary {
    /// Everything the summary report shows below its headline shares: the
    /// normalization signals where any fired, books affected per class, and
    /// the producer and family tallies, each in key order.
    pub fn render_counts(&self) -> (s: String)
        ensures
            s@ == counts_text(*self),
    {
        let mut s = String::new();
        if self.normalized > 0 {
            s.append("normalization signals (R27 — these files' producer strings name the manager):\n");
            push_tally(&mut s, &self.normalization_signals);
            s.append("\n");
        }
        s.append("divergence classes (books affected):\n");
        let ghost top = s@;
        let mut k: usize = 0;
        while k < 17
            invariant
                k <= 17,
                s@ == top + class_lines(*self, k as int),
            decreases 17 - k,
        {
            let c = class_at_exec(k);
            s.append("  ");
            s.append(group_label_exec(c.group()));
            s.append("  ");
            push_padded(&mut s, c.slug(), 24);
            s.append(" ");
            let n = count_exec(&self.by_class, c.slug());
            push_decimal(&mut s, n as u64);
            s.append("\n");
            k = k + 1;
            assert(s@ =~= top + class_lines(*self, k as int));
        }
        s.append("\nproducers (all files):\n");
        push_tally(&mut s, &self.producers);
        s.append("\nproducer families among un-normalized files — diversity is read from this:\n");
        push_tally(&mut s, &self.unnormalized_families);
        s.append("\nraw producer strings among un-normalized files:\n");
        if self.unnormalized_producers.len() == 0 {
            s.append("  (none — every file shows normalization evidence, so this\n");
            s.append("   corpus measures one writer regardless of what the\n");
            s.append("   producer strings above say)\n");
        }
        push_tally(&mut s, &self.unnormalized_producers);
        proof {
            assert(s@ =~= counts_text(*self));
        }
        s
    }
}

} // verus!
