//! The instrument validating itself against inputs whose class is known by
//! construction. A classifier that has never been shown a known answer is not
//! an instrument, it is an opinion.

use vstd::prelude::*;
use crate::classify::{classification, classify, div_views};
use crate::error::F2Error;
use crate::fixtures::Fixture;
use crate::taxonomy::{class_at, class_at_exec, slug_of, Class, Divergence, DivergenceView, CLASSIFIER_VERSION};
use crate::text::{debug_opt, debug_opt_string, decimal, padded, push_decimal, push_padded};
use crate::fixture_cases::FixtureView;
use crate::archive::{Archive, ArchiveView};
use crate::error::F2ErrorView;
use crate::zipread::archive_of;

verus! {

/// What checking one fixture found.
pub struct FixtureCheck {
    /// Whether the classes found are exactly the classes expected.
    pub ok: bool,
    /// Every divergence found.
    pub found: Vec<Divergence>,
}

/// Whether some divergence is of class `c`.
pub open spec fn found_class(ds: Seq<DivergenceView>, c: Class) -> bool {
    exists|i: int| 0 <= i < ds.len() && (#[trigger] ds[i]).class == c
}

/// No class listed twice.
pub open spec fn classes_distinct(v: Seq<Class>) -> bool {
    forall|i: int, j: int| 0 <= i < j < v.len() ==> v[i] != v[j]
}

/// The classes found, each once and sorted, are the expected ones sorted:
/// the expected list names each class once, and a class is found exactly
/// when it is expected.
pub open spec fn matches_expectation(ds: Seq<DivergenceView>, expect: Seq<Class>) -> bool {
    classes_distinct(expect) && forall|c: Class| found_class(ds, c) <==> expect.contains(c)
}

/// Whether a class occurs in a list.
fn contains_class(v: &Vec<Class>, c: Class) -> (b: bool)
    ensures
        b == v@.contains(c),
{
    let mut i: usize = 0;
    while i < v.len()
        invariant
            i <= v@.len(),
            forall|k: int| 0 <= k < i ==> v@[k] != c,
        decreases v@.len() - i,
    {
        if v[i] == c {
            return true;
        }
        i = i + 1;
    }
    false
}

/// Whether the divergences match the expectation.
fn check(found: &Vec<Divergence>, expect: &Vec<Class>) -> (b: bool)
    ensures
        b == matches_expectation(div_views(found@), expect@),
{
    let ghost dv = div_views(found@);
    // Each expected class once.
    let mut i: usize = 0;
    while i < expect.len()
        invariant
            i <= expect@.len(),
            forall|a: int, b: int| 0 <= a < b < i ==> expect@[a] != expect@[b],
        decreases expect@.len() - i,
    {
        let mut j: usize = 0;
        while j < i
            invariant
                i < expect@.len(),
                j <= i,
                forall|a: int| 0 <= a < j ==> expect@[a] != expect@[i as int],
            decreases i - j,
        {
            if expect[j] == expect[i] {
                assert(!classes_distinct(expect@));
                return false;
            }
            j = j + 1;
        }
        i = i + 1;
    }
    // Every divergence's class is expected.
    let mut i: usize = 0;
    while i < found.len()
        invariant
            dv == div_views(found@),
            i <= found@.len(),
            forall|k: int| 0 <= k < i ==> expect@.contains((#[trigger] dv[k]).class),
        decreases found@.len() - i,
    {
        assert(dv[i as int] == found@[i as int]@);
        if !contains_class(expect, found[i].class) {
            assert(found_class(dv, dv[i as int].class));
            return false;
        }
        i = i + 1;
    }
    // Every expected class is found.
    let mut k: usize = 0;
    while k < expect.len()
        invariant
            dv == div_views(found@),
            k <= expect@.len(),
            forall|m: int| 0 <= m < k ==> found_class(dv, #[trigger] expect@[m]),
        decreases expect@.len() - k,
    {
        let c = expect[k];
        let mut i: usize = 0;
        let mut seen = false;
        while i < found.len()
            invariant
                dv == div_views(found@),
                i <= found@.len(),
                seen ==> found_class(dv, c),
                !seen ==> forall|m: int| 0 <= m < i ==> (#[trigger] dv[m]).class != c,
            decreases found@.len() - i,
        {
            assert(dv[i as int] == found@[i as int]@);
            if found[i].class == c {
                seen = true;
            }
            i = i + 1;
        }
        if !seen {
            assert(expect@.contains(c));
            assert(!found_class(dv, c));
            return false;
        }
        k = k + 1;
    }
    proof {
        assert forall|c: Class| found_class(dv, c) <==> expect@.contains(c) by {
            if found_class(dv, c) {
                let w = choose|w: int| 0 <= w < dv.len() && (#[trigger] dv[w]).class == c;
                assert(expect@.contains(dv[w].class));
            }
            if expect@.contains(c) {
                let w = choose|w: int| 0 <= w < expect@.len() && expect@[w] == c;
                assert(found_class(dv, expect@[w]));
            }
        }
    }
    true
}

/// Read both sides of a fixture, classify them, and say whether the classes
/// found are exactly the classes it declares.
pub fn check_fixture(f: &Fixture) -> (r: Result<FixtureCheck, F2Error>)
    ensures
        match r {
            Ok(c) => archive_of(f.source@) is Ok && archive_of(f.roundtrip@) is Ok
                && div_views(c.found@) == classification(archive_of(f.source@)->Ok_0, archive_of(f.roundtrip@)->Ok_0)
                && c.ok == matches_expectation(div_views(c.found@), f.expect@),
            Err(e) => archive_of(f.source@) == Err::<crate::archive::ArchiveView, crate::error::F2ErrorView>(e@)
                || (archive_of(f.source@) is Ok && archive_of(f.roundtrip@) == Err::<crate::archive::ArchiveView, crate::error::F2ErrorView>(e@)),
        },
{
    let a = read_bytes(f.source.as_slice())?;
    let b = read_bytes(f.roundtrip.as_slice())?;
    let found = classify(&a, &b);
    let ok = check(&found, &f.expect);
    Ok(FixtureCheck { ok, found })
}

/// The slugs of some classes, joined by commas.
pub open spec fn joined(v: Seq<Class>) -> Seq<char>
    decreases v.len(),
{
    if v.len() == 0 {
        Seq::empty()
    } else if v.len() == 1 {
        slug_of(v[0])
    } else {
        joined(v.drop_last()) + ", "@ + slug_of(v.last())
    }
}

/// How a list of classes is reported: their slugs, or that there was no
/// divergence.
pub open spec fn described(v: Seq<Class>) -> Seq<char> {
    if v.len() == 0 { "no divergence"@ } else { joined(v) }
}

/// Report a list of classes.
pub fn describe(classes: &Vec<Class>) -> (s: String)
    ensures
        s@ == described(classes@),
{
    if classes.len() == 0 {
        return "no divergence".to_owned();
    }
    let mut s = classes[0].slug().to_owned();
    let mut i: usize = 1;
    assert(classes@.take(1).drop_last() =~= Seq::<Class>::empty());
    while i < classes.len()
        invariant
            1 <= i <= classes@.len(),
            s@ == joined(classes@.take(i as int)),
        decreases classes@.len() - i,
    {
        assert(classes@.take(i + 1).drop_last() =~= classes@.take(i as int));
        s.append(", ");
        s.append(classes[i].slug());
        i = i + 1;
    }
    assert(classes@.take(classes@.len() as int) =~= classes@);
    s
}

/// Read a container held in memory, by the same path every container
/// takes, so that fixtures are read as real books are.
pub fn read_bytes(bytes: &[u8]) -> (r: Result<Archive, F2Error>)
    ensures
        match r {
            Ok(a) => archive_of(bytes@) == Ok::<ArchiveView, F2ErrorView>(a@),
            Err(e) => archive_of(bytes@) == Err::<ArchiveView, F2ErrorView>(e@),
        },
{
    Archive::from_bytes(bytes)
}

// ---------------------------------------------------------------------------
// The report
// ---------------------------------------------------------------------------

/// The classes found among the first `k` classes, each once, in class order.
pub open spec fn present_classes(ds: Seq<DivergenceView>, k: int) -> Seq<Class>
    decreases k,
{
    if k <= 0 {
        Seq::empty()
    } else {
        present_classes(ds, k - 1) + if found_class(ds, class_at(k - 1)) { seq![class_at(k - 1)] } else { Seq::empty() }
    }
}

/// How often `c` occurs among the first `j` of `v`.
pub open spec fn occurrences(v: Seq<Class>, c: Class, j: int) -> nat
    decreases j,
{
    if j <= 0 { 0 } else { occurrences(v, c, j - 1) + if v[j - 1] == c { 1nat } else { 0nat } }
}

/// `v` in class order, for the first `k` classes: each class as often as it
/// occurs.
pub open spec fn in_class_order(v: Seq<Class>, k: int) -> Seq<Class>
    decreases k,
{
    if k <= 0 {
        Seq::empty()
    } else {
        in_class_order(v, k - 1) + Seq::new(occurrences(v, class_at(k - 1), v.len() as int), |i: int| class_at(k - 1))
    }
}

/// The classes found, each once, in class order.
fn present(found: &Vec<Divergence>) -> (v: Vec<Class>)
    ensures
        v@ == present_classes(div_views(found@), 17),
{
    let ghost dv = div_views(found@);
    let mut v: Vec<Class> = Vec::new();
    let mut k: usize = 0;
    while k < 17
        invariant
            dv == div_views(found@),
            k <= 17,
            v@ == present_classes(dv, k as int),
        decreases 17 - k,
    {
        let c = class_at_exec(k);
        let mut i: usize = 0;
        let mut seen = false;
        while i < found.len()
            invariant
                dv == div_views(found@),
                i <= found@.len(),
                seen ==> found_class(dv, c),
                !seen ==> forall|m: int| 0 <= m < i ==> (#[trigger] dv[m]).class != c,
            decreases found@.len() - i,
        {
            assert(dv[i as int] == found@[i as int]@);
            if found[i].class == c {
                seen = true;
            }
            i = i + 1;
        }
        if seen {
            v.push(c);
        }
        k = k + 1;
    }
    v
}

/// `v` in class order.
fn sort_classes(v: &Vec<Class>) -> (r: Vec<Class>)
    ensures
        r@ == in_class_order(v@, 17),
{
    let mut r: Vec<Class> = Vec::new();
    let mut k: usize = 0;
    while k < 17
        invariant
            k <= 17,
            r@ == in_class_order(v@, k as int),
        decreases 17 - k,
    {
        let c = class_at_exec(k);
        let ghost before = r@;
        let mut j: usize = 0;
        assert(Seq::new(occurrences(v@, c, 0), |i: int| c) =~= Seq::<Class>::empty());
        while j < v.len()
            invariant
                k < 17,
                c == class_at(k as int),
                j <= v@.len(),
                r@ == before + Seq::new(occurrences(v@, c, j as int), |i: int| c),
            decreases v@.len() - j,
        {
            if v[j] == c {
                r.push(c);
            }
            j = j + 1;
            assert(r@ =~= before + Seq::new(occurrences(v@, c, j as int), |i: int| c));
        }
        k = k + 1;
    }
    r
}

/// The line reporting one divergence of a failing fixture.
pub open spec fn divergence_line(d: DivergenceView) -> Seq<char> {
    "           "@ + slug_of(d.class) + " "@ + debug_opt(d.entry) + " "@ + d.detail + "\n"@
}

/// The lines of the first `k` divergences.
pub open spec fn divergence_lines(ds: Seq<DivergenceView>, k: int) -> Seq<char>
    decreases k,
{
    if k <= 0 { Seq::empty() } else { divergence_lines(ds, k - 1) + divergence_line(ds[k - 1]) }
}

/// What the self-test reports of one fixture: a passing line with the classes
/// found; or a failing line with the classes expected and found, then every
/// divergence found.
pub open spec fn fixture_report(f: FixtureView, ok: bool, ds: Seq<DivergenceView>) -> Seq<char> {
    if ok {
        "  ok    "@ + padded(f.id, 22) + " "@ + described(present_classes(ds, 17)) + "\n"@
    } else {
        "  FAIL  "@ + padded(f.id, 22) + " expected ["@ + described(in_class_order(f.expect, 17)) + "], got ["@
            + described(present_classes(ds, 17)) + "]\n"@ + divergence_lines(ds, ds.len() as int)
    }
}

/// Report one checked fixture.
pub fn report(f: &Fixture, c: &FixtureCheck) -> (s: String)
    ensures
        s@ == fixture_report(f@, c.ok, div_views(c.found@)),
{
    let got = present(&c.found);
    if c.ok {
        let mut s = "  ok    ".to_owned();
        push_padded(&mut s, f.id, 22);
        s.append(" ");
        s.append(describe(&got).as_str());
        s.append("\n");
        return s;
    }
    let mut s = "  FAIL  ".to_owned();
    push_padded(&mut s, f.id, 22);
    s.append(" expected [");
    s.append(describe(&sort_classes(&f.expect)).as_str());
    s.append("], got [");
    s.append(describe(&got).as_str());
    s.append("]\n");
    let ghost head = s@;
    let ghost dv = div_views(c.found@);
    let mut i: usize = 0;
    while i < c.found.len()
        invariant
            dv == div_views(c.found@),
            i <= c.found@.len(),
            s@ == head + divergence_lines(dv, i as int),
        decreases c.found@.len() - i,
    {
        let d = &c.found[i];
        assert(dv[i as int] == d@);
        s.append("           ");
        s.append(d.class.slug());
        s.append(" ");
        s.append(debug_opt_string(&d.entry).as_str());
        s.append(" ");
        s.append(d.detail.as_str());
        s.append("\n");
        i = i + 1;
        assert(s@ =~= head + divergence_lines(dv, i as int));
    }
    s
}

/// The closing line of a self-test.
pub open spec fn closing_line(failures: nat) -> Seq<char> {
    "\nclassifier "@ + CLASSIFIER_VERSION@ + ": "@ + decimal(failures) + " failing fixture(s)"@
}

/// Close a self-test with the number of failing fixtures.
pub fn closing(failures: usize) -> (s: String)
    ensures
        s@ == closing_line(failures as nat),
{
    let mut s = "\nclassifier ".to_owned();
    s.append(CLASSIFIER_VERSION);
    s.append(": ");
    push_decimal(&mut s, failures as u64);
    s.append(" failing fixture(s)");
    s
}

} // verus!
