//! The fixture cases themselves — one divergence class each, by
//! construction. The claims are the part to hold against the
//! taxonomy; the builder in `fixtures` is the part that has to be boring.

use vstd::prelude::*;
use vstd::utf8::encode_utf8;
use crate::error::F2Error;
use crate::fixtures::{
    base, base_plan, base_plan_spec, build, built, lie_about_size, lied, mutated, new_body, new_extra,
    new_stored, plan, plan_views, pv, replace_all, replaced, scan_in_bounds, scan_in_bounds_exec, set_body, set_extra,
    set_stored, text_bytes, writer_failed, names_fit, buildable, lemma_base_buildable,
    lemma_mutated_buildable, lemma_replaced_len, lemma_texts_short, lemma_utf8_len, Fixture, Plan,
    PlanView, CHAPTER, OPF,
};
use crate::zipwrite::{extra_ok, ENTRY_LIMIT};
use crate::taxonomy::Class;
use crate::text::{concat_bytes, copy_bytes, str_eq};

verus! {

/// The mathematical content of a fixture.
pub struct FixtureView {
    pub id: Seq<char>,
    pub source: Seq<u8>,
    pub roundtrip: Seq<u8>,
    pub expect: Seq<Class>,
}

impl View for Fixture {
    type V = FixtureView;

    open spec fn view(&self) -> FixtureView {
        FixtureView { id: self.id@, source: self.source@, roundtrip: self.roundtrip@, expect: self.expect@ }
    }
}

/// The views of a list of fixtures.
pub open spec fn fixture_views(v: Seq<Fixture>) -> Seq<FixtureView> {
    Seq::new(v.len(), |i: int| v[i]@)
}

/// The plans without any entry of this name.
pub open spec fn without(p: Seq<PlanView>, name: Seq<char>) -> Seq<PlanView>
    decreases p.len(),
{
    if p.len() == 0 {
        Seq::empty()
    } else if p.last().name == name {
        without(p.drop_last(), name)
    } else {
        without(p.drop_last(), name).push(p.last())
    }
}

/// Every plan kept is one of the plans it was kept from.
proof fn lemma_without_from(p: Seq<PlanView>, name: Seq<char>)
    ensures
        without(p, name).len() <= p.len(),
        forall|j: int| 0 <= j < without(p, name).len() ==> exists|k: int| 0 <= k < p.len() && p[k] == #[trigger] without(p, name)[j],
    decreases p.len(),
{
    if p.len() > 0 {
        let d = p.drop_last();
        lemma_without_from(d, name);
        let w = without(p, name);
        assert forall|j: int| 0 <= j < w.len() implies exists|k: int| 0 <= k < p.len() && p[k] == #[trigger] w[j] by {
            if j < without(d, name).len() {
                let k = choose|k: int| 0 <= k < d.len() && d[k] == without(d, name)[j];
                assert(p[k] == d[k]);
                assert(w[j] == without(d, name)[j]);
            } else {
                assert(w[j] == p[p.len() - 1]);
            }
        }
    }
}

/// Dropping plans keeps a plan the writer takes one it takes.
proof fn lemma_without_buildable(p: Seq<PlanView>, c: Seq<char>, name: Seq<char>)
    requires
        buildable(p, c),
    ensures
        buildable(without(p, name), c),
    decreases p.len(),
{
    lemma_without_from(p, name);
    if p.len() > 0 {
        let d = p.drop_last();
        assert forall|a: int, b: int| 0 <= a < b < d.len() implies (#[trigger] d[a]).name != (#[trigger] d[b]).name by {
            assert(d[a] == p[a] && d[b] == p[b]);
        }
        assert forall|k: int| 0 <= k < d.len() implies extra_ok((#[trigger] d[k]).extra) && d[k].body.len() <= ENTRY_LIMIT by {
            assert(d[k] == p[k]);
        }
        lemma_without_buildable(d, c, name);
        lemma_without_from(d, name);
        let w = without(p, name);
        if p.last().name != name {
            let u = without(d, name);
            assert forall|a: int, b: int| 0 <= a < b < w.len() implies (#[trigger] w[a]).name != (#[trigger] w[b]).name by {
                if b < u.len() {
                    assert(w[a] == u[a] && w[b] == u[b]);
                } else {
                    assert(w[a] == u[a]);
                    assert(w[b] == p[p.len() - 1]);
                    let k = choose|k: int| 0 <= k < d.len() && d[k] == #[trigger] u[a];
                    assert(p[k] == d[k]);
                }
            }
            assert forall|k: int| 0 <= k < w.len() implies extra_ok((#[trigger] w[k]).extra) && w[k].body.len() <= ENTRY_LIMIT by {
                if k < u.len() {
                    assert(w[k] == u[k]);
                } else {
                    assert(w[k] == p[p.len() - 1]);
                }
            }
        }
    }
}

/// Exchanging two plans keeps a plan the writer takes one it takes.
proof fn lemma_swapped_buildable(p: Seq<PlanView>, c: Seq<char>, a: int, b: int)
    requires
        buildable(p, c),
        0 <= a < b < p.len(),
    ensures
        buildable(swapped(p, a, b), c),
{
    let q = swapped(p, a, b);
    let src = |k: int| if k == a { b } else if k == b { a } else { k };
    assert forall|k: int| 0 <= k < q.len() implies q[k] == p[src(k)] by {}
    assert forall|x: int, y: int| 0 <= x < y < q.len() implies (#[trigger] q[x]).name != (#[trigger] q[y]).name by {
        assert(q[x] == p[src(x)] && q[y] == p[src(y)]);
        if src(x) < src(y) {
            assert(p[src(x)].name != p[src(y)].name);
        } else {
            assert(p[src(y)].name != p[src(x)].name);
        }
    }
    assert forall|k: int| 0 <= k < q.len() implies extra_ok((#[trigger] q[k]).extra) && q[k].body.len() <= ENTRY_LIMIT by {
        assert(q[k] == p[src(k)]);
    }
}

/// A new body for one base plan, short enough, keeps the base buildable.
proof fn lemma_body_buildable(name: Seq<char>, b: Seq<u8>)
    requires
        b.len() <= ENTRY_LIMIT,
    ensures
        buildable(mutated(base_plan_spec(), name, new_body(b)), Seq::empty()),
{
    lemma_base_buildable(Seq::empty());
    let f = new_body(b);
    assert forall|q: PlanView| #[trigger] f(q).name == q.name && (f(q).body == q.body || f(q).body.len() <= ENTRY_LIMIT)
        && (f(q).extra == q.extra || extra_ok(f(q).extra)) by {}
    lemma_mutated_buildable(base_plan_spec(), Seq::empty(), name, f);
}

/// The chapter with one pattern replaced encodes short enough.
proof fn lemma_replaced_short(s: Seq<char>, from: Seq<char>, to: Seq<char>)
    requires
        s.len() < 1024,
        to.len() <= 200,
    ensures
        encode_utf8(replaced(s, from, to)).len() <= ENTRY_LIMIT,
{
    lemma_replaced_len(s, from, to);
    lemma_utf8_len(replaced(s, from, to));
    assert((s.len() + 1) * (to.len() + 1) <= 1025 * 201) by (nonlinear_arith)
        requires
            s.len() < 1024,
            to.len() <= 200,
    ;
}

/// Dropping plans keeps every remaining name fitting.
proof fn lemma_without_fit(p: Seq<PlanView>, name: Seq<char>)
    requires
        names_fit(p),
    ensures
        names_fit(without(p, name)),
    decreases p.len(),
{
    if p.len() > 0 {
        let d = p.drop_last();
        assert forall|k: int| 0 <= k < d.len() implies (#[trigger] d[k]).name.len() < 16384 by {
            assert(d[k] == p[k]);
        }
        lemma_without_fit(d, name);
        if p.last().name != name {
            let w = without(d, name).push(p.last());
            assert forall|k: int| 0 <= k < w.len() implies (#[trigger] w[k]).name.len() < 16384 by {
                if k < without(d, name).len() {
                    assert(w[k] == without(d, name)[k]);
                } else {
                    assert(w[k] == p[p.len() - 1]);
                }
            }
        }
    }
}

/// The plans with two positions exchanged.
pub open spec fn swapped(p: Seq<PlanView>, a: int, b: int) -> Seq<PlanView> {
    p.update(a, p[b]).update(b, p[a])
}

/// The chapter's entry name.
pub open spec fn ch1() -> Seq<char> {
    "OEBPS/ch1.xhtml"@
}

/// The phantom manifest item the manifest-mismatch fixture declares.
pub open spec fn phantom_item() -> Seq<char> {
    "<item id=\"gone\" href=\"missing.xhtml\"                      media-type=\"application/xhtml+xml\"/></manifest>"@
}

/// The base container.
pub open spec fn base_bytes() -> Seq<u8> {
    built(base_plan_spec(), Seq::empty())
}

/// A container built from a variant of the base plan.
pub open spec fn variant(p: Seq<PlanView>) -> Seq<u8> {
    built(p, Seq::empty())
}

/// A fixture against the base container.
pub open spec fn against_base(id: Seq<char>, roundtrip: Seq<u8>, expect: Seq<Class>) -> FixtureView {
    FixtureView { id, source: base_bytes(), roundtrip, expect }
}

/// A fixture whose two sides are the same container.
pub open spec fn both_sides(id: Seq<char>, bytes: Seq<u8>, expect: Seq<Class>) -> FixtureView {
    FixtureView { id, source: bytes, roundtrip: bytes, expect }
}

/// The container whose package declares an item nobody wrote.
pub open spec fn phantom_bytes() -> Seq<u8> {
    variant(mutated(base_plan_spec(), "OEBPS/package.opf"@, new_body(encode_utf8(replaced(OPF@, "</manifest>"@, phantom_item())))))
}

/// Fixture `k`, with the classes it must produce.
pub open spec fn expected_fixture(k: int) -> FixtureView {
    let b = base_plan_spec();
    if k == 0 {
        against_base("content-byte-diff"@, variant(mutated(b, ch1(), new_body(encode_utf8(replaced(CHAPTER@, "Hello."@, "Hello!"@))))),
            seq![Class::ContentByteDiff])
    } else if k == 1 {
        against_base("entry-missing"@, variant(without(b, ch1())), seq![Class::EntryMissing, Class::ManifestMismatch])
    } else if k == 2 {
        against_base("entry-added"@, variant(b.push(pv("OEBPS/extra.txt"@, encode_utf8("surplus"@), false))),
            seq![Class::EntryAdded])
    } else if k == 3 {
        against_base("xml-canonicalization"@, variant(mutated(b, ch1(), new_body(encode_utf8(replaced(CHAPTER@,
            "id=\"a\" class=\"x\""@, "class=\"x\" id=\"a\""@))))), seq![Class::XmlCanonicalization])
    } else if k == 4 {
        against_base("text-encoding"@, variant(mutated(b, ch1(), new_body(seq![0xEFu8, 0xBBu8, 0xBFu8] + encode_utf8(CHAPTER@)))),
            seq![Class::TextEncoding])
    } else if k == 5 {
        against_base("line-endings"@, variant(mutated(b, ch1(), new_body(encode_utf8(replaced(CHAPTER@, "\n"@, "\r\n"@))))),
            seq![Class::LineEndings])
    } else if k == 6 {
        against_base("entry-order"@, variant(swapped(b, 3, 4)), seq![Class::EntryOrder])
    } else if k == 7 {
        against_base("compression-method"@, variant(mutated(b, ch1(), new_stored(true))), seq![Class::CompressionMethod])
    } else if k == 8 {
        against_base("comment"@, built(b, "written by something else"@), seq![Class::Comment])
    } else if k == 9 {
        against_base("mimetype-not-first"@, variant(swapped(b, 0, 1)), seq![Class::EntryOrder, Class::MimetypeNotFirst])
    } else if k == 10 {
        against_base("mimetype-compressed"@, variant(mutated(b, "mimetype"@, new_stored(false))),
            seq![Class::CompressionMethod, Class::MimetypeCompressed])
    } else if k == 11 {
        against_base("extra-field"@, variant(mutated(b, ch1(), new_extra(Some((0x5455u16, seq![1u8, 0u8, 0u8, 0u8, 0u8]))))),
            seq![Class::ExtraField])
    } else if k == 12 {
        both_sides("declared-size-mismatch"@, lied(base_bytes(), ch1(), 9999, 0), seq![Class::DeclaredSizeMismatch])
    } else if k == 13 {
        both_sides("manifest-mismatch"@, phantom_bytes(), seq![Class::ManifestMismatch])
    } else {
        both_sides("identical"@, base_bytes(), Seq::empty())
    }
}

/// The number of fixtures.
pub const FIXTURE_COUNT: usize = 15;

/// Every fixture, in order, with the classes it must produce.
pub open spec fn expected_fixtures() -> Seq<FixtureView> {
    Seq::new(FIXTURE_COUNT as nat, |k: int| expected_fixture(k))
}

/// Exchange two positions of a plan list.
fn swap_plans(plans: Vec<Plan>, a: usize, b: usize) -> (r: Vec<Plan>)
    requires
        a < b < plans@.len(),
    ensures
        plan_views(r@) == swapped(plan_views(plans@), a as int, b as int),
        names_fit(plan_views(plans@)) ==> names_fit(plan_views(r@)),
{
    proof {
        let p = plan_views(plans@);
        let q = swapped(p, a as int, b as int);
        if names_fit(p) {
            assert forall|k: int| 0 <= k < q.len() implies (#[trigger] q[k]).name.len() < 16384 by {
                if k == a as int {
                    assert(q[k] == p[b as int]);
                } else if k == b as int {
                    assert(q[k] == p[a as int]);
                } else {
                    assert(q[k] == p[k]);
                }
            }
        }
    }
    let ghost pv = plan_views(plans@);
    let mut v = plans;
    let y = v.remove(b);
    let x = v.remove(a);
    v.insert(a, y);
    v.insert(b, x);
    assert(plan_views(v@) =~= swapped(pv, a as int, b as int));
    v
}

/// The plans without any entry of this name.
fn drop_named(plans: Vec<Plan>, name: &str) -> (r: Vec<Plan>)
    ensures
        plan_views(r@) == without(plan_views(plans@), name@),
        names_fit(plan_views(plans@)) ==> names_fit(plan_views(r@)),
{
    proof {
        if names_fit(plan_views(plans@)) {
            lemma_without_fit(plan_views(plans@), name@);
        }
    }
    let ghost pv = plan_views(plans@);
    let n = plans.len();
    let mut rest = plans;
    let mut kept: Vec<Plan> = Vec::new();
    let mut i: usize = 0;
    assert(without(pv.take(0), name@) =~= Seq::<PlanView>::empty());
    assert(plan_views(kept@) =~= Seq::<PlanView>::empty());
    while rest.len() > 0
        invariant
            n == pv.len(),
            i + rest@.len() == pv.len(),
            plan_views(rest@) == pv.skip(i as int),
            plan_views(kept@) == without(pv.take(i as int), name@),
        decreases rest@.len(),
    {
        let ghost before = rest@;
        assert(plan_views(before)[0] == pv.skip(i as int)[0]);
        let p = rest.remove(0);
        assert(p@ == pv[i as int]);
        assert(pv.take(i + 1).drop_last() =~= pv.take(i as int));
        assert(pv.take(i + 1).last() == pv[i as int]);
        if !str_eq(p.name, name) {
            let ghost k = plan_views(kept@);
            kept.push(p);
            assert(plan_views(kept@) =~= k.push(pv[i as int]));
        }
        assert(plan_views(rest@) =~= pv.skip(i + 1)) by {
            assert(rest@ =~= before.remove(0));
            assert forall|m: int| 0 <= m < rest@.len() implies plan_views(rest@)[m] == pv.skip(i + 1)[m] by {
                assert(rest@[m] == before[m + 1]);
                assert(plan_views(before)[m + 1] == pv.skip(i as int)[m + 1]);
            }
        }
        i = i + 1;
    }
    assert(pv.take(i as int) =~= pv);
    kept
}

/// One expected class.
fn one_class(c: Class) -> (v: Vec<Class>)
    ensures
        v@ == seq![c],
{
    let mut v: Vec<Class> = Vec::new();
    v.push(c);
    assert(v@ =~= seq![c]);
    v
}

/// Two expected classes, in report order.
fn two_classes(a: Class, b: Class) -> (v: Vec<Class>)
    ensures
        v@ == seq![a, b],
{
    let mut v: Vec<Class> = Vec::new();
    v.push(a);
    v.push(b);
    assert(v@ =~= seq![a, b]);
    v
}

/// A fixture against the base container.
fn fixture(id: &'static str, source: &Vec<u8>, roundtrip: Vec<u8>, expect: Vec<Class>) -> (f: Fixture)
    ensures
        f@ == (FixtureView { id: id@, source: source@, roundtrip: roundtrip@, expect: expect@ }),
{
    Fixture { id, source: copy_bytes(source.as_slice()), roundtrip, expect }
}

/// Fixture 0.
fn content_byte_diff(b0: &Vec<u8>) -> (r: Result<Fixture, F2Error>)
    requires
        b0@ == base_bytes(),
    ensures
        r matches Ok(f) && f@ == expected_fixture(0),
{
    proof {
        reveal_strlit("Hello.");
        reveal_strlit("Hello!");
        lemma_texts_short();
        lemma_replaced_short(CHAPTER@, "Hello."@, "Hello!"@);
        lemma_body_buildable(ch1(), encode_utf8(replaced(CHAPTER@, "Hello."@, "Hello!"@)));
    }
    let chapter = replace_all(CHAPTER, "Hello.", "Hello!");
    let rt = build(&set_body(base_plan(), "OEBPS/ch1.xhtml", text_bytes(chapter.as_str())), None)?;
    Ok(fixture("content-byte-diff", b0, rt, one_class(Class::ContentByteDiff)))
}

/// Fixture 1.
fn entry_missing(b0: &Vec<u8>) -> (r: Result<Fixture, F2Error>)
    requires
        b0@ == base_bytes(),
    ensures
        r matches Ok(f) && f@ == expected_fixture(1),
{
    // Dropping a manifested file is a manifest mismatch too: the package
    // still declares it and the container no longer has it.
    proof {
        lemma_base_buildable(Seq::empty());
        lemma_without_buildable(base_plan_spec(), Seq::empty(), "OEBPS/ch1.xhtml"@);
    }
    let rt = build(&drop_named(base_plan(), "OEBPS/ch1.xhtml"), None)?;
    Ok(fixture("entry-missing", b0, rt, two_classes(Class::EntryMissing, Class::ManifestMismatch)))
}

/// Fixture 2.
fn entry_added(b0: &Vec<u8>) -> (r: Result<Fixture, F2Error>)
    requires
        b0@ == base_bytes(),
    ensures
        r matches Ok(f) && f@ == expected_fixture(2),
{
    let mut added = base_plan();
    let ghost before = added@;
    added.push(plan("OEBPS/extra.txt", text_bytes("surplus")));
    assert(plan_views(added@) =~= plan_views(before).push(pv("OEBPS/extra.txt"@, encode_utf8("surplus"@), false)));
    proof {
        reveal_strlit("OEBPS/extra.txt");
        reveal_strlit("surplus");
        lemma_base_buildable(Seq::empty());
        lemma_utf8_len("surplus"@);
        let q = plan_views(added@);
        let b = base_plan_spec();
        assert forall|x: int, y: int| 0 <= x < y < q.len() implies (#[trigger] q[x]).name != (#[trigger] q[y]).name by {
            if y < b.len() {
                assert(q[x] == b[x] && q[y] == b[y]);
            } else {
                assert(q[x] == b[x]);
                reveal_strlit("mimetype");
                reveal_strlit("META-INF/container.xml");
                reveal_strlit("OEBPS/package.opf");
                reveal_strlit("OEBPS/nav.xhtml");
                reveal_strlit("OEBPS/toc.ncx");
                reveal_strlit("OEBPS/ch1.xhtml");
                assert(q[y].name[6] == 'e');
                if q[x].name.len() == q[y].name.len() {
                    assert(q[x].name[6] != 'e');
                }
            }
        }
        assert forall|k: int| 0 <= k < q.len() implies extra_ok((#[trigger] q[k]).extra) && q[k].body.len() <= ENTRY_LIMIT by {
            if k < b.len() {
                assert(q[k] == b[k]);
            }
        }
        assert(buildable(q, Seq::empty()));
        assert forall|k: int| 0 <= k < q.len() implies (#[trigger] q[k]).name.len() < 16384 by {
            if k < plan_views(before).len() {
                assert(q[k] == plan_views(before)[k]);
            }
        }
    }
    let rt = build(&added, None)?;
    Ok(fixture("entry-added", b0, rt, one_class(Class::EntryAdded)))
}

/// Fixture 3.
fn xml_canonicalization(b0: &Vec<u8>) -> (r: Result<Fixture, F2Error>)
    requires
        b0@ == base_bytes(),
    ensures
        r matches Ok(f) && f@ == expected_fixture(3),
{
    proof {
        reveal_strlit("id=\"a\" class=\"x\"");
        reveal_strlit("class=\"x\" id=\"a\"");
        lemma_texts_short();
        lemma_replaced_short(CHAPTER@, "id=\"a\" class=\"x\""@, "class=\"x\" id=\"a\""@);
        lemma_body_buildable(ch1(), encode_utf8(replaced(CHAPTER@, "id=\"a\" class=\"x\""@, "class=\"x\" id=\"a\""@)));
    }
    // Attribute order reversed: same infoset, different bytes.
    let chapter = replace_all(CHAPTER, "id=\"a\" class=\"x\"", "class=\"x\" id=\"a\"");
    let rt = build(&set_body(base_plan(), "OEBPS/ch1.xhtml", text_bytes(chapter.as_str())), None)?;
    Ok(fixture("xml-canonicalization", b0, rt, one_class(Class::XmlCanonicalization)))
}

/// Fixture 4.
fn text_encoding(b0: &Vec<u8>) -> (r: Result<Fixture, F2Error>)
    requires
        b0@ == base_bytes(),
    ensures
        r matches Ok(f) && f@ == expected_fixture(4),
{
    let mut bom: Vec<u8> = Vec::new();
    bom.push(0xEF);
    bom.push(0xBB);
    bom.push(0xBF);
    assert(bom@ =~= seq![0xEFu8, 0xBBu8, 0xBFu8]);
    let body = concat_bytes(bom.as_slice(), text_bytes(CHAPTER).as_slice());
    proof {
        lemma_texts_short();
        lemma_utf8_len(CHAPTER@);
        lemma_body_buildable(ch1(), body@);
    }
    let rt = build(&set_body(base_plan(), "OEBPS/ch1.xhtml", body), None)?;
    Ok(fixture("text-encoding", b0, rt, one_class(Class::TextEncoding)))
}

/// Fixture 5.
fn line_endings(b0: &Vec<u8>) -> (r: Result<Fixture, F2Error>)
    requires
        b0@ == base_bytes(),
    ensures
        r matches Ok(f) && f@ == expected_fixture(5),
{
    proof {
        reveal_strlit("\n");
        reveal_strlit("\r\n");
        lemma_texts_short();
        lemma_replaced_short(CHAPTER@, "\n"@, "\r\n"@);
        lemma_body_buildable(ch1(), encode_utf8(replaced(CHAPTER@, "\n"@, "\r\n"@)));
    }
    let chapter = replace_all(CHAPTER, "\n", "\r\n");
    let rt = build(&set_body(base_plan(), "OEBPS/ch1.xhtml", text_bytes(chapter.as_str())), None)?;
    Ok(fixture("line-endings", b0, rt, one_class(Class::LineEndings)))
}

/// Fixture 6.
fn entry_order(b0: &Vec<u8>) -> (r: Result<Fixture, F2Error>)
    requires
        b0@ == base_bytes(),
    ensures
        r matches Ok(f) && f@ == expected_fixture(6),
{
    proof {
        lemma_base_buildable(Seq::empty());
        lemma_swapped_buildable(base_plan_spec(), Seq::empty(), 3, 4);
    }
    let rt = build(&swap_plans(base_plan(), 3, 4), None)?;
    Ok(fixture("entry-order", b0, rt, one_class(Class::EntryOrder)))
}

/// Fixture 7.
fn compression_method(b0: &Vec<u8>) -> (r: Result<Fixture, F2Error>)
    requires
        b0@ == base_bytes(),
    ensures
        r matches Ok(f) && f@ == expected_fixture(7),
{
    proof {
        lemma_base_buildable(Seq::empty());
        let f = new_stored(true);
        assert forall|q: PlanView| #[trigger] f(q).name == q.name && (f(q).body == q.body || f(q).body.len() <= ENTRY_LIMIT)
            && (f(q).extra == q.extra || extra_ok(f(q).extra)) by {}
        lemma_mutated_buildable(base_plan_spec(), Seq::empty(), "OEBPS/ch1.xhtml"@, f);
    }
    let rt = build(&set_stored(base_plan(), "OEBPS/ch1.xhtml", true), None)?;
    Ok(fixture("compression-method", b0, rt, one_class(Class::CompressionMethod)))
}

/// Fixture 8.
fn comment(b0: &Vec<u8>) -> (r: Result<Fixture, F2Error>)
    requires
        b0@ == base_bytes(),
    ensures
        r matches Ok(f) && f@ == expected_fixture(8),
{
    proof {
        reveal_strlit("written by something else");
        lemma_base_buildable("written by something else"@);
    }
    let rt = build(&base_plan(), Some("written by something else"))?;
    Ok(fixture("comment", b0, rt, one_class(Class::Comment)))
}

/// Fixture 9.
fn mimetype_not_first(b0: &Vec<u8>) -> (r: Result<Fixture, F2Error>)
    requires
        b0@ == base_bytes(),
    ensures
        r matches Ok(f) && f@ == expected_fixture(9),
{
    // Moving mimetype out of first position is a reordering too.
    proof {
        lemma_base_buildable(Seq::empty());
        lemma_swapped_buildable(base_plan_spec(), Seq::empty(), 0, 1);
    }
    let rt = build(&swap_plans(base_plan(), 0, 1), None)?;
    Ok(fixture("mimetype-not-first", b0, rt, two_classes(Class::EntryOrder, Class::MimetypeNotFirst)))
}

/// Fixture 10.
fn mimetype_compressed(b0: &Vec<u8>) -> (r: Result<Fixture, F2Error>)
    requires
        b0@ == base_bytes(),
    ensures
        r matches Ok(f) && f@ == expected_fixture(10),
{
    // Compressing mimetype is a compression-method change too.
    proof {
        lemma_base_buildable(Seq::empty());
        let f = new_stored(false);
        assert forall|q: PlanView| #[trigger] f(q).name == q.name && (f(q).body == q.body || f(q).body.len() <= ENTRY_LIMIT)
            && (f(q).extra == q.extra || extra_ok(f(q).extra)) by {}
        lemma_mutated_buildable(base_plan_spec(), Seq::empty(), "mimetype"@, f);
    }
    let rt = build(&set_stored(base_plan(), "mimetype", false), None)?;
    Ok(fixture("mimetype-compressed", b0, rt, two_classes(Class::CompressionMethod, Class::MimetypeCompressed)))
}

/// Fixture 11.
fn extra_field(b0: &Vec<u8>) -> (r: Result<Fixture, F2Error>)
    requires
        b0@ == base_bytes(),
    ensures
        r matches Ok(f) && f@ == expected_fixture(11),
{
    // 0x5455 is the extended-timestamp field: a flags byte, then a 4-byte
    // modification time.
    let extra: Vec<u8> = vec![0x01, 0x00, 0x00, 0x00, 0x00];
    proof {
        lemma_base_buildable(Seq::empty());
        let f = new_extra(Some((0x5455u16, extra@)));
        assert(extra_ok(Some((0x5455u16, extra@))));
        assert forall|q: PlanView| #[trigger] f(q).name == q.name && (f(q).body == q.body || f(q).body.len() <= ENTRY_LIMIT)
            && (f(q).extra == q.extra || extra_ok(f(q).extra)) by {}
        lemma_mutated_buildable(base_plan_spec(), Seq::empty(), ch1(), f);
    }
    let rt = build(&set_extra(base_plan(), "OEBPS/ch1.xhtml", Some((0x5455, extra))), None)?;
    Ok(fixture("extra-field", b0, rt, one_class(Class::ExtraField)))
}

/// Fixture 12.
fn declared_size_mismatch(b0: &Vec<u8>) -> (r: Result<Fixture, F2Error>)
    requires
        b0@ == base_bytes(),
    ensures
        r matches Ok(f) ==> f@ == expected_fixture(12),
        r is Ok <==> scan_in_bounds(base_bytes(), "OEBPS/ch1.xhtml"@, 0),
        r matches Err(e) ==> e is NotOcf,
{
    // Both sides carry the lie: the class is a claim one container makes
    // about itself, checked against the round-trip alone.
    if !scan_in_bounds_exec(b0.as_slice(), "OEBPS/ch1.xhtml") {
        return Err(F2Error::NotOcf("the base container's central directory runs past its end".to_owned()));
    }
    let lying = lie_about_size(b0.as_slice(), "OEBPS/ch1.xhtml", 9999);
    let copy = copy_bytes(lying.as_slice());
    Ok(fixture("declared-size-mismatch", &lying, copy, one_class(Class::DeclaredSizeMismatch)))
}

/// Fixture 13.
fn manifest_mismatch(b0: &Vec<u8>) -> (r: Result<Fixture, F2Error>)
    requires
        b0@ == base_bytes(),
    ensures
        r matches Ok(f) && f@ == expected_fixture(13),
{
    proof {
        reveal_strlit("</manifest>");
        reveal_strlit("<item id=\"gone\" href=\"missing.xhtml\"                      media-type=\"application/xhtml+xml\"/></manifest>");
        lemma_texts_short();
        lemma_replaced_short(OPF@, "</manifest>"@, phantom_item());
        lemma_body_buildable("OEBPS/package.opf"@, encode_utf8(replaced(OPF@, "</manifest>"@, phantom_item())));
    }
    // A manifest naming a file nobody wrote, declared on both sides so the
    // class is isolated from the content difference one changed package
    // would make.
    let opf = replace_all(OPF, "</manifest>",
        "<item id=\"gone\" href=\"missing.xhtml\"                      media-type=\"application/xhtml+xml\"/></manifest>");
    let phantom = build(&set_body(base_plan(), "OEBPS/package.opf", text_bytes(opf.as_str())), None)?;
    let copy = copy_bytes(phantom.as_slice());
    Ok(fixture("manifest-mismatch", &phantom, copy, one_class(Class::ManifestMismatch)))
}

/// Fixture 14.
fn identical(b0: &Vec<u8>) -> (r: Result<Fixture, F2Error>)
    requires
        b0@ == base_bytes(),
    ensures
        r matches Ok(f) && f@ == expected_fixture(14),
{
    let copy = copy_bytes(b0.as_slice());
    let none: Vec<Class> = Vec::new();
    assert(none@ =~= Seq::<Class>::empty());
    Ok(fixture("identical", b0, copy, none))
}

/// Every fixture, in order. Each asserts its complete set of classes; the
/// identity case, with none, is the one that catches an instrument crying
/// wolf. Every container is written in memory from plans the writer takes,
/// so the list fails only where the base container's central directory
/// could not be scanned for the entry whose size it is made to misstate.
pub fn all() -> (r: Result<Vec<Fixture>, F2Error>)
    ensures
        r matches Ok(v) ==> fixture_views(v@) == expected_fixtures(),
        r is Ok <==> scan_in_bounds(base_bytes(), "OEBPS/ch1.xhtml"@, 0),
        r matches Err(e) ==> e is NotOcf,
{
    let b0 = base()?;
    let mut out: Vec<Fixture> = Vec::new();
    out.push(content_byte_diff(&b0)?);
    assert(out@.len() == 1 && out@[0]@ == expected_fixture(0));
    out.push(entry_missing(&b0)?);
    assert(out@.len() == 2 && out@[1]@ == expected_fixture(1));
    out.push(entry_added(&b0)?);
    assert(out@.len() == 3 && out@[2]@ == expected_fixture(2));
    out.push(xml_canonicalization(&b0)?);
    assert(out@.len() == 4 && out@[3]@ == expected_fixture(3));
    out.push(text_encoding(&b0)?);
    assert(out@.len() == 5 && out@[4]@ == expected_fixture(4));
    out.push(line_endings(&b0)?);
    assert(out@.len() == 6 && out@[5]@ == expected_fixture(5));
    out.push(entry_order(&b0)?);
    assert(out@.len() == 7 && out@[6]@ == expected_fixture(6));
    out.push(compression_method(&b0)?);
    assert(out@.len() == 8 && out@[7]@ == expected_fixture(7));
    out.push(comment(&b0)?);
    assert(out@.len() == 9 && out@[8]@ == expected_fixture(8));
    out.push(mimetype_not_first(&b0)?);
    assert(out@.len() == 10 && out@[9]@ == expected_fixture(9));
    out.push(mimetype_compressed(&b0)?);
    assert(out@.len() == 11 && out@[10]@ == expected_fixture(10));
    out.push(extra_field(&b0)?);
    assert(out@.len() == 12 && out@[11]@ == expected_fixture(11));
    out.push(declared_size_mismatch(&b0)?);
    assert(out@.len() == 13 && out@[12]@ == expected_fixture(12));
    out.push(manifest_mismatch(&b0)?);
    assert(out@.len() == 14 && out@[13]@ == expected_fixture(13));
    out.push(identical(&b0)?);
    assert(out@.len() == 15 && out@[14]@ == expected_fixture(14));
    assert(fixture_views(out@) =~= expected_fixtures());
    Ok(out)
}

} // verus!
