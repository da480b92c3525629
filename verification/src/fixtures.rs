//! Fixtures that encode one divergence class each, by construction.
//!
//! This is how the instrument is validated. Each fixture is a pair — a base
//! container and a variant that differs in exactly one known way — so the
//! expected class is known a priori rather than inferred from the data.
//!
//! Every variant holds constant everything it can. Some perturbations are
//! irreducibly multi-class — `mimetype` cannot stop being the first entry
//! without the entry order changing — so a fixture declares the complete
//! expected set.

use vstd::prelude::*;
use vstd::string::StringSliceAdditionalSpecFns;
use vstd::utf8::encode_utf8;
use crate::error::F2Error;
pub use crate::fixture_cases::all;
use crate::taxonomy::Class;
use crate::text::{chars_of, copy_bytes, lossy_text, str_eq, utf8_lossy};
use crate::zipwrite::{
    chunks_len, extra_ok, extra_view, small, zip_built, zip_finish, zip_in_entry, zip_note,
    zip_set_comment, zip_start_file, zip_write_all, zip_writer, zip_written, Stamp, WrittenEntry,
    ENTRY_LIMIT,
};

verus! {

/// The package document every fixture starts from.
pub const OPF: &'static str = r#"<?xml version="1.0" encoding="UTF-8"?>
<package xmlns="http://www.idpf.org/2007/opf" version="3.0" unique-identifier="id">
  <metadata xmlns:dc="http://purl.org/dc/elements/1.1/">
    <dc:identifier id="id">urn:uuid:f2-fixture</dc:identifier>
    <dc:title>Fixture</dc:title>
    <dc:language>en</dc:language>
    <meta name="generator" content="futhark-f2-fixtures"/>
  </metadata>
  <manifest>
    <item id="nav" href="nav.xhtml" media-type="application/xhtml+xml" properties="nav"/>
    <item id="ncx" href="toc.ncx" media-type="application/x-dtbncx+xml"/>
    <item id="c1" href="ch1.xhtml" media-type="application/xhtml+xml"/>
  </manifest>
  <spine toc="ncx"><itemref idref="c1"/></spine>
</package>
"#;

/// A navigation document. Without it and the NCX the container is not a
/// valid EPUB 3, and a reader that repairs invalid input by synthesising the
/// missing pieces would look identical to one that corrupts valid input.
pub const NAV: &'static str = r#"<?xml version="1.0" encoding="UTF-8"?>
<html xmlns="http://www.w3.org/1999/xhtml" xmlns:epub="http://www.idpf.org/2007/ops">
<head><title>Contents</title></head>
<body><nav epub:type="toc" id="toc"><ol><li><a href="ch1.xhtml">One</a></li></ol></nav></body>
</html>
"#;

/// The NCX table of contents.
pub const NCX: &'static str = r#"<?xml version="1.0" encoding="UTF-8"?>
<ncx xmlns="http://www.daisy.org/z3986/2005/ncx/" version="2005-1">
<head><meta name="dtb:uid" content="urn:uuid:f2-fixture"/></head>
<docTitle><text>Fixture</text></docTitle>
<navMap><navPoint id="np1" playOrder="1">
  <navLabel><text>One</text></navLabel><content src="ch1.xhtml"/>
</navPoint></navMap>
</ncx>
"#;

/// The one content document.
pub const CHAPTER: &'static str = r#"<?xml version="1.0" encoding="UTF-8"?>
<html xmlns="http://www.w3.org/1999/xhtml"><head><title>One</title></head>
<body><p id="a" class="x">Hello.</p></body></html>
"#;

/// The OCF container document, pointing at the package.
pub const CONTAINER: &'static str = r#"<?xml version="1.0" encoding="UTF-8"?>
<container version="1.0" xmlns="urn:oasis:names:tc:opendocument:xmlns:container">
  <rootfiles><rootfile full-path="OEBPS/package.opf"
    media-type="application/oebps-package+xml"/></rootfiles>
</container>
"#;

/// A fixture: two containers and the classes that should separate them.
pub struct Fixture {
    /// Stable identifier, used in test output.
    pub id: &'static str,
    /// The source container.
    pub source: Vec<u8>,
    /// The round-tripped container.
    pub roundtrip: Vec<u8>,
    /// The classes the classifier must report — exactly these.
    pub expect: Vec<Class>,
}

/// One entry as it will be written.
pub struct Plan {
    /// Path within the container.
    pub name: &'static str,
    /// Bytes to write.
    pub body: Vec<u8>,
    /// Stored uncompressed rather than deflated.
    pub stored: bool,
    /// A zip extra field, as header id and payload.
    pub extra: Option<(u16, Vec<u8>)>,
}

/// The mathematical content of a plan.
pub struct PlanView {
    pub name: Seq<char>,
    pub body: Seq<u8>,
    pub stored: bool,
    pub extra: Option<(u16, Seq<u8>)>,
}

impl View for Plan {
    type V = PlanView;

    open spec fn view(&self) -> PlanView {
        PlanView { name: self.name@, body: self.body@, stored: self.stored, extra: extra_view(self.extra) }
    }
}

/// The views of a list of plans.
pub open spec fn plan_views(v: Seq<Plan>) -> Seq<PlanView> {
    Seq::new(v.len(), |i: int| v[i]@)
}

/// Plans as written: each body in one chunk.
pub open spec fn written(p: Seq<PlanView>) -> Seq<WrittenEntry> {
    Seq::new(p.len(), |i: int| WrittenEntry {
        name: p[i].name,
        stored: p[i].stored,
        modified: fixture_stamp(),
        extra: p[i].extra,
        chunks: seq![p[i].body],
    })
}

/// The container built from plans and an archive comment.
pub open spec fn built(p: Seq<PlanView>, comment: Seq<char>) -> Seq<u8> {
    zip_built(written(p), comment)
}

/// A deflated entry with no extra field.
pub open spec fn pv(name: Seq<char>, body: Seq<u8>, stored: bool) -> PlanView {
    PlanView { name, body, stored, extra: None }
}

/// Every fixture entry is timestamped alike, at the earliest time a zip
/// header holds, 1980-01-01 00:00:00, so that only what a fixture changes
/// differs between two containers.
pub open spec fn fixture_stamp() -> Stamp {
    (1980u16, 1u8, 1u8, 0u8, 0u8, 0u8)
}

fn fixture_stamp_exec() -> (t: Stamp)
    ensures
        t == fixture_stamp(),
{
    (1980, 1, 1, 0, 0, 0)
}

/// No two plans share a name.
pub open spec fn names_distinct(p: Seq<PlanView>) -> bool {
    forall|i: int, j: int| 0 <= i < j < p.len() ==> (#[trigger] p[i]).name != (#[trigger] p[j]).name
}

/// Plans and a comment the writer takes without refusal: at most 1024
/// entries with distinct names, accepted extra fields and bodies of at most
/// [`ENTRY_LIMIT`] bytes, and a comment of fewer than 16384 characters.
pub open spec fn buildable(p: Seq<PlanView>, comment: Seq<char>) -> bool {
    &&& p.len() <= 1024
    &&& comment.len() < 16384
    &&& names_distinct(p)
    &&& forall|i: int| 0 <= i < p.len() ==> extra_ok((#[trigger] p[i]).extra) && p[i].body.len() <= ENTRY_LIMIT
}

/// A body written in one chunk has that chunk's length.
proof fn lemma_one_chunk(b: Seq<u8>)
    ensures
        chunks_len(seq![b]) == b.len(),
{
    assert(seq![b].drop_last() =~= Seq::<Seq<u8>>::empty());
    assert(chunks_len(Seq::<Seq<u8>>::empty()) == 0);
    assert(seq![b].last() == b);
}

/// What a buildable plan has written by any point is small.
proof fn lemma_prefix_small(pv: Seq<PlanView>, c: Seq<char>, i: int)
    requires
        buildable(pv, c),
        names_fit(pv),
        0 <= i <= pv.len(),
    ensures
        small(written(pv.take(i))),
{
    let w = written(pv.take(i));
    assert forall|k: int| 0 <= k < w.len() implies {
        &&& (#[trigger] w[k]).name.len() < 16384
        &&& extra_ok(w[k].extra)
        &&& chunks_len(w[k].chunks) <= ENTRY_LIMIT
    } by {
        assert(pv.take(i)[k] == pv[k]);
        lemma_one_chunk(pv[k].body);
    }
}

/// Every planned name fits a zip header's 16-bit length field, at four bytes
/// a character at most.
pub open spec fn names_fit(p: Seq<PlanView>) -> bool {
    forall|i: int| 0 <= i < p.len() ==> (#[trigger] p[i]).name.len() < 16384
}

/// Changing a plan without touching its name keeps every name fitting.
proof fn lemma_mutated_fit(p: Seq<PlanView>, name: Seq<char>, f: spec_fn(PlanView) -> PlanView)
    requires
        names_fit(p),
        forall|q: PlanView| #[trigger] f(q).name == q.name,
    ensures
        names_fit(mutated(p, name, f)),
{
    if exists|i: int| first_plan(p, name, i) {
        let i = choose|i: int| first_plan(p, name, i);
        let u = p.update(i, f(p[i]));
        assert forall|k: int| 0 <= k < u.len() implies (#[trigger] u[k]).name.len() < 16384 by {
            if k != i {
                assert(u[k] == p[k]);
            } else {
                assert(f(p[i]).name == p[i].name);
            }
        }
    }
}

/// The base container's plan.
pub open spec fn base_plan_spec() -> Seq<PlanView> {
    seq![
        pv("mimetype"@, encode_utf8("application/epub+zip"@), true),
        pv("META-INF/container.xml"@, encode_utf8(CONTAINER@), false),
        pv("OEBPS/package.opf"@, encode_utf8(OPF@), false),
        pv("OEBPS/nav.xhtml"@, encode_utf8(NAV@), false),
        pv("OEBPS/toc.ncx"@, encode_utf8(NCX@), false),
        pv("OEBPS/ch1.xhtml"@, encode_utf8(CHAPTER@), false),
    ]
}

/// The comment an optional comment sets: none is the empty comment.
pub open spec fn comment_of(c: Option<&str>) -> Seq<char> {
    match c {
        Some(s) => s@,
        None => Seq::empty(),
    }
}

/// The UTF-8 bytes of a string.
pub fn text_bytes(s: &str) -> (v: Vec<u8>)
    ensures
        v@ == encode_utf8(s@),
{
    copy_bytes(s.as_bytes())
}

/// A deflated plan with no extra field.
pub fn plan(name: &'static str, body: Vec<u8>) -> (p: Plan)
    ensures
        p@ == pv(name@, body@, false),
{
    Plan { name, body, stored: false, extra: None }
}

/// The base container's plan: `mimetype` stored first, then the container
/// document, package, navigation, NCX and one chapter.
pub fn base_plan() -> (v: Vec<Plan>)
    ensures
        plan_views(v@) == base_plan_spec(),
        names_fit(base_plan_spec()),
{
    proof {
        reveal_strlit("mimetype");
        reveal_strlit("META-INF/container.xml");
        reveal_strlit("OEBPS/package.opf");
        reveal_strlit("OEBPS/nav.xhtml");
        reveal_strlit("OEBPS/toc.ncx");
        reveal_strlit("OEBPS/ch1.xhtml");
    }
    let mut v: Vec<Plan> = Vec::new();
    v.push(Plan { name: "mimetype", body: text_bytes("application/epub+zip"), stored: true, extra: None });
    v.push(plan("META-INF/container.xml", text_bytes(CONTAINER)));
    v.push(plan("OEBPS/package.opf", text_bytes(OPF)));
    v.push(plan("OEBPS/nav.xhtml", text_bytes(NAV)));
    v.push(plan("OEBPS/toc.ncx", text_bytes(NCX)));
    v.push(plan("OEBPS/ch1.xhtml", text_bytes(CHAPTER)));
    assert(plan_views(v@) =~= base_plan_spec());
    v
}

/// Write the planned entries, in order, into a container with an optional
/// archive comment, every entry timestamped alike.
pub fn build(plans: &Vec<Plan>, comment: Option<&str>) -> (r: Result<Vec<u8>, F2Error>)
    requires
        names_fit(plan_views(plans@)),
    ensures
        r matches Ok(b) ==> b@ == built(plan_views(plans@), comment_of(comment)),
        r matches Err(e) ==> writer_failed(e),
        buildable(plan_views(plans@), comment_of(comment)) ==> r is Ok,
{
    let mut w = zip_writer();
    match comment {
        Some(c) => zip_set_comment(&mut w, c),
        None => {},
    }
    let ghost pv = plan_views(plans@);
    let mut i: usize = 0;
    assert(written(pv.take(0)) =~= Seq::<WrittenEntry>::empty());
    while i < plans.len()
        invariant
            pv == plan_views(plans@),
            names_fit(pv),
            i <= plans@.len(),
            zip_written(w) == written(pv.take(i as int)),
            zip_note(w) == comment_of(comment),
            buildable(pv, comment_of(comment)) ==> small(written(pv.take(i as int))),
        decreases plans@.len() - i,
    {
        let p = &plans[i];
        assert(p@ == pv[i as int]);
        proof {
            if buildable(pv, comment_of(comment)) {
                let ws = zip_written(w);
                assert forall|k: int| 0 <= k < ws.len() implies (#[trigger] ws[k]).name != p.name@ by {
                    assert(pv.take(i as int)[k] == pv[k]);
                }
            }
        }
        match zip_start_file(&mut w, p.name, p.stored, fixture_stamp_exec(), &p.extra) {
            Ok(()) => {},
            Err(e) => return Err(F2Error::Zip(e)),
        }
        proof {
            if buildable(pv, comment_of(comment)) {
                let ws = zip_written(w);
                assert forall|k: int| 0 <= k < ws.len() implies {
                    &&& (#[trigger] ws[k]).name.len() < 16384
                    &&& extra_ok(ws[k].extra)
                    &&& chunks_len(ws[k].chunks) <= ENTRY_LIMIT
                } by {
                    if k < i {
                        assert(ws[k] == written(pv.take(i as int))[k]);
                    } else {
                        assert(ws[k].chunks =~= Seq::<Seq<u8>>::empty());
                    }
                }
                assert(ws.last().chunks =~= Seq::<Seq<u8>>::empty());
            }
        }
        match zip_write_all(&mut w, p.body.as_slice()) {
            Ok(()) => {},
            Err(e) => return Err(F2Error::Io { path: p.name.to_owned(), message: e }),
        }
        assert(zip_written(w) =~= written(pv.take(i + 1)));
        proof {
            if buildable(pv, comment_of(comment)) {
                lemma_prefix_small(pv, comment_of(comment), i + 1);
            }
        }
        i = i + 1;
    }
    assert(pv.take(pv.len() as int) =~= pv);
    match zip_finish(w) {
        Ok(b) => Ok(b),
        Err(e) => Err(F2Error::Zip(e)),
    }
}

/// An error the zip writer reports: a refused entry or archive, or a refused
/// body write.
pub open spec fn writer_failed(e: F2Error) -> bool {
    e is Zip || e is Io
}

/// `i` is the first plan with this name.
pub open spec fn first_plan(p: Seq<PlanView>, name: Seq<char>, i: int) -> bool {
    0 <= i < p.len() && p[i].name == name && forall|j: int| 0 <= j < i ==> (#[trigger] p[j]).name != name
}

/// The plans with the first one of this name changed by `f`; unchanged if
/// none has it.
pub open spec fn mutated(p: Seq<PlanView>, name: Seq<char>, f: spec_fn(PlanView) -> PlanView) -> Seq<PlanView> {
    if exists|i: int| first_plan(p, name, i) {
        let i = choose|i: int| first_plan(p, name, i);
        p.update(i, f(p[i]))
    } else {
        p
    }
}

/// A new body.
pub open spec fn new_body(body: Seq<u8>) -> spec_fn(PlanView) -> PlanView {
    |q: PlanView| PlanView { body, ..q }
}

/// A new storage choice.
pub open spec fn new_stored(stored: bool) -> spec_fn(PlanView) -> PlanView {
    |q: PlanView| PlanView { stored, ..q }
}

/// A new extra field.
pub open spec fn new_extra(extra: Option<(u16, Seq<u8>)>) -> spec_fn(PlanView) -> PlanView {
    |q: PlanView| PlanView { extra, ..q }
}

/// Where the first plan of this name is.
fn find_plan(plans: &Vec<Plan>, name: &str) -> (r: Option<usize>)
    ensures
        match r {
            Some(i) => first_plan(plan_views(plans@), name@, i as int),
            None => !exists|i: int| first_plan(plan_views(plans@), name@, i),
        },
{
    let ghost pv = plan_views(plans@);
    let mut i: usize = 0;
    while i < plans.len()
        invariant
            pv == plan_views(plans@),
            i <= pv.len(),
            forall|j: int| 0 <= j < i ==> (#[trigger] pv[j]).name != name@,
        decreases pv.len() - i,
    {
        assert(pv[i as int] == plans@[i as int]@);
        if str_eq(plans[i].name, name) {
            return Some(i);
        }
        i = i + 1;
    }
    None
}

/// The first plan of this name is unique where there is one.
proof fn lemma_first_plan_unique(p: Seq<PlanView>, name: Seq<char>, i: int)
    requires
        first_plan(p, name, i),
    ensures
        (choose|k: int| first_plan(p, name, k)) == i,
{
    let k = choose|k: int| first_plan(p, name, k);
    if k < i {
        assert(p[k].name != name);
    }
    if i < k {
        assert(p[i].name != name);
    }
}

/// Replace the body of the first plan of this name.
pub fn set_body(plans: Vec<Plan>, name: &str, body: Vec<u8>) -> (r: Vec<Plan>)
    ensures
        plan_views(r@) == mutated(plan_views(plans@), name@, new_body(body@)),
        names_fit(plan_views(plans@)) ==> names_fit(plan_views(r@)),
{
    proof {
        let f = new_body(body@);
        assert forall|q: PlanView| #[trigger] f(q).name == q.name by {}
        if names_fit(plan_views(plans@)) {
            lemma_mutated_fit(plan_views(plans@), name@, f);
        }
    }
    let mut plans = plans;
    let ghost pv = plan_views(plans@);
    match find_plan(&plans, name) {
        Some(i) => {
            proof {
                lemma_first_plan_unique(pv, name@, i as int);
            }
            let mut p = plans.remove(i);
            p.body = body;
            plans.insert(i, p);
            assert(plan_views(plans@) =~= pv.update(i as int, (new_body(body@))(pv[i as int])));
        },
        None => {},
    }
    plans
}

/// Change the storage of the first plan of this name.
pub fn set_stored(plans: Vec<Plan>, name: &str, stored: bool) -> (r: Vec<Plan>)
    ensures
        plan_views(r@) == mutated(plan_views(plans@), name@, new_stored(stored)),
        names_fit(plan_views(plans@)) ==> names_fit(plan_views(r@)),
{
    proof {
        let f = new_stored(stored);
        assert forall|q: PlanView| #[trigger] f(q).name == q.name by {}
        if names_fit(plan_views(plans@)) {
            lemma_mutated_fit(plan_views(plans@), name@, f);
        }
    }
    let mut plans = plans;
    let ghost pv = plan_views(plans@);
    match find_plan(&plans, name) {
        Some(i) => {
            proof {
                lemma_first_plan_unique(pv, name@, i as int);
            }
            let mut p = plans.remove(i);
            p.stored = stored;
            plans.insert(i, p);
            assert(plan_views(plans@) =~= pv.update(i as int, (new_stored(stored))(pv[i as int])));
        },
        None => {},
    }
    plans
}

/// Give the first plan of this name an extra field.
pub fn set_extra(plans: Vec<Plan>, name: &str, extra: Option<(u16, Vec<u8>)>) -> (r: Vec<Plan>)
    ensures
        plan_views(r@) == mutated(plan_views(plans@), name@, new_extra(extra_view(extra))),
        names_fit(plan_views(plans@)) ==> names_fit(plan_views(r@)),
{
    proof {
        let f = new_extra(extra_view(extra));
        assert forall|q: PlanView| #[trigger] f(q).name == q.name by {}
        if names_fit(plan_views(plans@)) {
            lemma_mutated_fit(plan_views(plans@), name@, f);
        }
    }
    let mut plans = plans;
    let ghost pv = plan_views(plans@);
    let ghost ev = extra_view(extra);
    match find_plan(&plans, name) {
        Some(i) => {
            proof {
                lemma_first_plan_unique(pv, name@, i as int);
            }
            let mut p = plans.remove(i);
            p.extra = extra;
            plans.insert(i, p);
            assert(plan_views(plans@) =~= pv.update(i as int, (new_extra(ev))(pv[i as int])));
        },
        None => {},
    }
    plans
}

/// The unmodified container every fixture is measured against.
pub fn base() -> (r: Result<Vec<u8>, F2Error>)
    ensures
        r matches Ok(b) && b@ == built(base_plan_spec(), Seq::empty()),
{
    proof {
        lemma_base_buildable(Seq::empty());
    }
    build(&base_plan(), None)
}

/// The base container, unmodified: a file no manager has touched.
pub fn clean_container() -> (r: Result<Vec<u8>, F2Error>)
    ensures
        r matches Ok(b) && b@ == built(base_plan_spec(), Seq::empty()),
{
    proof {
        lemma_base_buildable(Seq::empty());
    }
    build(&base_plan(), None)
}

/// A container whose package document is the given text, for exercising
/// what reads the package: normalization evidence and producer extraction.
pub fn container_with_opf(opf: &str) -> (r: Result<Vec<u8>, F2Error>)
    ensures
        r matches Ok(b) ==> b@ == built(mutated(base_plan_spec(), "OEBPS/package.opf"@, new_body(encode_utf8(opf@))), Seq::empty()),
        r matches Err(e) ==> writer_failed(e),
        encode_utf8(opf@).len() <= ENTRY_LIMIT ==> r is Ok,
{
    proof {
        lemma_base_buildable(Seq::empty());
    }
    let plans = set_body(base_plan(), "OEBPS/package.opf", text_bytes(opf));
    proof {
        if encode_utf8(opf@).len() <= ENTRY_LIMIT {
            let f = new_body(encode_utf8(opf@));
            assert forall|q: PlanView| #[trigger] f(q).name == q.name && (f(q).body == q.body || f(q).body.len() <= ENTRY_LIMIT)
                && (f(q).extra == q.extra || extra_ok(f(q).extra)) by {}
            lemma_mutated_buildable(base_plan_spec(), Seq::empty(), "OEBPS/package.opf"@, new_body(encode_utf8(opf@)));
        }
    }
    build(&plans, None)
}

/// Every non-overlapping occurrence of `from`, left to right, replaced by
/// `to`, as `str::replace` does; an empty pattern occurs before every
/// character and at the end.
pub open spec fn replaced(s: Seq<char>, from: Seq<char>, to: Seq<char>) -> Seq<char>
    decreases s.len(),
{
    if from.len() == 0 {
        if s.len() == 0 { to } else { to + seq![s[0]] + replaced(s.drop_first(), from, to) }
    } else if s.len() < from.len() {
        s
    } else if s.take(from.len() as int) == from {
        to + replaced(s.skip(from.len() as int), from, to)
    } else {
        seq![s[0]] + replaced(s.drop_first(), from, to)
    }
}

/// Whether `from` occurs in `cs` at `i`.
fn chars_at(cs: &Vec<char>, from: &Vec<char>, i: usize) -> (r: bool)
    requires
        i + from@.len() <= cs@.len(),
    ensures
        r == (cs@.skip(i as int).take(from@.len() as int) == from@),
{
    let cl = cs.len();
    let mut k: usize = 0;
    while k < from.len()
        invariant
            cl == cs@.len(),
            i + from@.len() <= cs@.len(),
            k <= from@.len(),
            forall|m: int| 0 <= m < k ==> cs@[i + m] == from@[m],
        decreases from@.len() - k,
    {
        if cs[i + k] != from[k] {
            assert(cs@.skip(i as int).take(from@.len() as int)[k as int] != from@[k as int]);
            return false;
        }
        k = k + 1;
    }
    assert(cs@.skip(i as int).take(from@.len() as int) =~= from@);
    true
}

/// `to` before every character of `s` and after the last: what replacing an
/// empty pattern gives.
fn interleave(s: &str, to: &str) -> (r: String)
    ensures
        r@ == replaced(s@, Seq::empty(), to@),
{
    let n = s.unicode_len();
    let mut out = String::new();
    let mut i: usize = 0;
    assert(s@.skip(0) =~= s@);
    assert(Seq::<char>::empty() + replaced(s@, Seq::empty(), to@) =~= replaced(s@, Seq::empty(), to@));
    while i < n
        invariant
            n == s@.len(),
            i <= n,
            out@ + replaced(s@.skip(i as int), Seq::empty(), to@) == replaced(s@, Seq::empty(), to@),
        decreases n - i,
    {
        let ghost rest = s@.skip(i as int);
        let ghost before = out@;
        out.append(to);
        let one = s.substring_char(i, i + 1);
        out.append(one);
        assert(one@ =~= seq![rest[0]]);
        assert(rest.drop_first() =~= s@.skip(i + 1));
        assert(out@ + replaced(s@.skip(i + 1), Seq::empty(), to@) =~= before + replaced(rest, Seq::empty(), to@));
        i = i + 1;
    }
    assert(s@.skip(n as int) =~= Seq::<char>::empty());
    out.append(to);
    out
}

/// Replace every non-overlapping occurrence of `from` by `to`, left to right.
pub fn replace_all(s: &str, from: &str, to: &str) -> (r: String)
    ensures
        r@ == replaced(s@, from@, to@),
{
    let cs = chars_of(s);
    let fs = chars_of(from);
    let n = cs.len();
    let m = fs.len();
    if m == 0 {
        assert(from@ =~= Seq::<char>::empty());
        return interleave(s, to);
    }
    let mut out = String::new();
    let mut i: usize = 0;
    assert(s@.skip(0) =~= s@);
    assert(Seq::<char>::empty() + replaced(s@, from@, to@) =~= replaced(s@, from@, to@));
    while i < n
        invariant
            cs@ == s@,
            fs@ == from@,
            n == s@.len(),
            m == from@.len(),
            m > 0,
            i <= n,
            out@ + replaced(s@.skip(i as int), from@, to@) == replaced(s@, from@, to@),
        decreases n - i,
    {
        let ghost rest = s@.skip(i as int);
        let ghost before = out@;
        if m <= n - i && chars_at(&cs, &fs, i) {
            out.append(to);
            assert(rest.take(m as int) == from@);
            assert(rest.skip(m as int) =~= s@.skip(i + m));
            assert(out@ + replaced(s@.skip(i + m), from@, to@) =~= before + replaced(rest, from@, to@));
            i = i + m;
        } else {
            let one = s.substring_char(i, i + 1);
            out.append(one);
            assert(one@ =~= seq![rest[0]]);
            proof {
                if rest.len() >= m {
                    assert(rest.take(m as int) != from@);
                }
            }
            assert(rest.drop_first() =~= s@.skip(i + 1));
            assert(out@ + replaced(s@.skip(i + 1), from@, to@) =~= before + replaced(rest, from@, to@));
            i = i + 1;
        }
    }
    assert(s@.skip(n as int) =~= Seq::<char>::empty());
    assert(out@ + Seq::<char>::empty() =~= out@);
    out
}

/// A little-endian 16-bit field.
pub open spec fn le16(z: Seq<u8>, i: int) -> nat {
    (z[i] + 256 * z[i + 1]) as nat
}

/// Whether a central directory header signature starts at `i`.
pub open spec fn central_at(z: Seq<u8>, i: int) -> bool {
    0 <= i && i + 4 <= z.len() && z[i] == 0x50 && z[i + 1] == 0x4b && z[i + 2] == 0x01 && z[i + 3] == 0x02
}

/// The little-endian bytes of a 32-bit value.
pub open spec fn le32_bytes(v: u32) -> Seq<u8> {
    seq![(v % 256) as u8, ((v / 256) % 256) as u8, ((v / 65536) % 256) as u8, ((v / 16777216) % 256) as u8]
}

/// Whether the scan for `entry`'s central header, from `i`, stays inside the
/// bytes: every header it reads names within the buffer.
pub open spec fn scan_in_bounds(z: Seq<u8>, entry: Seq<char>, i: int) -> bool
    decreases z.len() - i,
{
    if i < 0 || i + 46 > z.len() {
        true
    } else if !central_at(z, i) {
        scan_in_bounds(z, entry, i + 1)
    } else {
        let n = le16(z, i + 28);
        i + 46 + n <= z.len() && (lossy_text(z.subrange(i + 46, i + 46 + n)) == entry || scan_in_bounds(
            z,
            entry,
            i + 46 + n,
        ))
    }
}

/// The bytes with the uncompressed-size field of `entry`'s central header,
/// the first one the scan from `i` finds, set to `claim`.
pub open spec fn lied(z: Seq<u8>, entry: Seq<char>, claim: u32, i: int) -> Seq<u8>
    decreases z.len() - i,
{
    if i < 0 || i + 46 > z.len() {
        z
    } else if !central_at(z, i) {
        lied(z, entry, claim, i + 1)
    } else {
        let n = le16(z, i + 28);
        if i + 46 + n > z.len() {
            z
        } else if lossy_text(z.subrange(i + 46, i + 46 + n)) == entry {
            z.subrange(0, i + 24) + le32_bytes(claim) + z.subrange(i + 28, z.len() as int)
        } else {
            lied(z, entry, claim, i + 46 + n)
        }
    }
}

/// Whether the scan for `entry` stays inside the bytes.
pub fn scan_in_bounds_exec(zip: &[u8], entry: &str) -> (b: bool)
    ensures
        b == scan_in_bounds(zip@, entry@, 0),
{
    let mut i: usize = 0;
    while 46 <= zip.len() && i <= zip.len() - 46
        invariant
            i <= zip@.len() + 46,
            scan_in_bounds(zip@, entry@, 0) == scan_in_bounds(zip@, entry@, i as int),
        decreases zip@.len() + 46 - i,
    {
        if !(zip[i] == 0x50 && zip[i + 1] == 0x4b && zip[i + 2] == 0x01 && zip[i + 3] == 0x02) {
            i = i + 1;
        } else {
            let n = zip[i + 28] as usize + (zip[i + 29] as usize) * 256;
            if n > zip.len() - (i + 46) {
                return false;
            }
            let name = utf8_lossy(slice_bytes(zip, i + 46, i + 46 + n).as_slice());
            if str_eq(name.as_str(), entry) {
                return true;
            }
            i = i + 46 + n;
        }
    }
    true
}

/// Bytes `a..b` of a slice, copied.
fn slice_bytes(z: &[u8], a: usize, b: usize) -> (v: Vec<u8>)
    requires
        a <= b <= z@.len(),
    ensures
        v@ == z@.subrange(a as int, b as int),
{
    let mut v: Vec<u8> = Vec::new();
    let mut k: usize = a;
    while k < b
        invariant
            a <= k <= b,
            b <= z@.len(),
            v@ == z@.subrange(a as int, k as int),
        decreases b - k,
    {
        v.push(z[k]);
        k = k + 1;
        assert(v@ =~= z@.subrange(a as int, k as int));
    }
    v
}

/// Rewrite the uncompressed-size field in an entry's central directory
/// record, leaving the bytes it describes untouched. No zip writer emits
/// this, which is the point: a container that lies about itself is the only
/// witness for a declared-size mismatch. The CRC is left correct so the
/// archive still opens.
pub fn lie_about_size(zip: &[u8], entry: &str, claim: u32) -> (out: Vec<u8>)
    requires
        scan_in_bounds(zip@, entry@, 0),
    ensures
        out@ == lied(zip@, entry@, claim, 0),
{
    let mut i: usize = 0;
    while 46 <= zip.len() && i <= zip.len() - 46
        invariant
            i <= zip@.len() + 46,
            scan_in_bounds(zip@, entry@, i as int),
            lied(zip@, entry@, claim, 0) == lied(zip@, entry@, claim, i as int),
        decreases zip@.len() + 46 - i,
    {
        if !(zip[i] == 0x50 && zip[i + 1] == 0x4b && zip[i + 2] == 0x01 && zip[i + 3] == 0x02) {
            i = i + 1;
        } else {
            let n = zip[i + 28] as usize + (zip[i + 29] as usize) * 256;
            let name = utf8_lossy(slice_bytes(zip, i + 46, i + 46 + n).as_slice());
            if str_eq(name.as_str(), entry) {
                let mut out = slice_bytes(zip, 0, i + 24);
                out.push((claim % 256) as u8);
                out.push(((claim / 256) % 256) as u8);
                out.push(((claim / 65536) % 256) as u8);
                out.push(((claim / 16777216) % 256) as u8);
                let tail = slice_bytes(zip, i + 28, zip.len());
                let mut k: usize = 0;
                let ghost head = out@;
                while k < tail.len()
                    invariant
                        k <= tail@.len(),
                        out@ == head + tail@.take(k as int),
                    decreases tail@.len() - k,
                {
                    out.push(tail[k]);
                    k = k + 1;
                    assert(out@ =~= head + tail@.take(k as int));
                }
                assert(tail@.take(tail@.len() as int) =~= tail@);
                assert(out@ =~= zip@.subrange(0, i + 24) + le32_bytes(claim) + zip@.subrange(i + 28, zip@.len() as int));
                return out;
            }
            i = i + 46 + n;
        }
    }
    copy_bytes(zip)
}

/// Lying about a size keeps the container's length.
pub proof fn law_lying_keeps_length(z: Seq<u8>, entry: Seq<char>, claim: u32, i: int)
    ensures
        lied(z, entry, claim, i).len() == z.len(),
    decreases z.len() - i,
{
    if !(i < 0 || i + 46 > z.len()) {
        if !central_at(z, i) {
            law_lying_keeps_length(z, entry, claim, i + 1);
        } else {
            let n = le16(z, i + 28);
            if i + 46 + n <= z.len() && lossy_text(z.subrange(i + 46, i + 46 + n)) != entry {
                law_lying_keeps_length(z, entry, claim, i + 46 + n);
            }
        }
    }
}

// ---------------------------------------------------------------------------
// What the writer is handed
// ---------------------------------------------------------------------------

/// UTF-8 takes at most four bytes a character.
pub proof fn lemma_utf8_len(s: Seq<char>)
    ensures
        encode_utf8(s).len() <= 4 * s.len(),
    decreases s.len(),
{
    if s.len() > 0 {
        lemma_utf8_len(s.drop_first());
    }
}

/// The fixture texts are short.
pub proof fn lemma_texts_short()
    ensures
        OPF@.len() < 1024,
        NAV@.len() < 1024,
        NCX@.len() < 1024,
        CHAPTER@.len() < 1024,
        CONTAINER@.len() < 1024,
{
    reveal_strlit(r#"<?xml version="1.0" encoding="UTF-8"?>
<package xmlns="http://www.idpf.org/2007/opf" version="3.0" unique-identifier="id">
  <metadata xmlns:dc="http://purl.org/dc/elements/1.1/">
    <dc:identifier id="id">urn:uuid:f2-fixture</dc:identifier>
    <dc:title>Fixture</dc:title>
    <dc:language>en</dc:language>
    <meta name="generator" content="futhark-f2-fixtures"/>
  </metadata>
  <manifest>
    <item id="nav" href="nav.xhtml" media-type="application/xhtml+xml" properties="nav"/>
    <item id="ncx" href="toc.ncx" media-type="application/x-dtbncx+xml"/>
    <item id="c1" href="ch1.xhtml" media-type="application/xhtml+xml"/>
  </manifest>
  <spine toc="ncx"><itemref idref="c1"/></spine>
</package>
"#);
    assert(OPF@ == r#"<?xml version="1.0" encoding="UTF-8"?>
<package xmlns="http://www.idpf.org/2007/opf" version="3.0" unique-identifier="id">
  <metadata xmlns:dc="http://purl.org/dc/elements/1.1/">
    <dc:identifier id="id">urn:uuid:f2-fixture</dc:identifier>
    <dc:title>Fixture</dc:title>
    <dc:language>en</dc:language>
    <meta name="generator" content="futhark-f2-fixtures"/>
  </metadata>
  <manifest>
    <item id="nav" href="nav.xhtml" media-type="application/xhtml+xml" properties="nav"/>
    <item id="ncx" href="toc.ncx" media-type="application/x-dtbncx+xml"/>
    <item id="c1" href="ch1.xhtml" media-type="application/xhtml+xml"/>
  </manifest>
  <spine toc="ncx"><itemref idref="c1"/></spine>
</package>
"#@);
    reveal_strlit(r#"<?xml version="1.0" encoding="UTF-8"?>
<html xmlns="http://www.w3.org/1999/xhtml" xmlns:epub="http://www.idpf.org/2007/ops">
<head><title>Contents</title></head>
<body><nav epub:type="toc" id="toc"><ol><li><a href="ch1.xhtml">One</a></li></ol></nav></body>
</html>
"#);
    assert(NAV@ == r#"<?xml version="1.0" encoding="UTF-8"?>
<html xmlns="http://www.w3.org/1999/xhtml" xmlns:epub="http://www.idpf.org/2007/ops">
<head><title>Contents</title></head>
<body><nav epub:type="toc" id="toc"><ol><li><a href="ch1.xhtml">One</a></li></ol></nav></body>
</html>
"#@);
    reveal_strlit(r#"<?xml version="1.0" encoding="UTF-8"?>
<ncx xmlns="http://www.daisy.org/z3986/2005/ncx/" version="2005-1">
<head><meta name="dtb:uid" content="urn:uuid:f2-fixture"/></head>
<docTitle><text>Fixture</text></docTitle>
<navMap><navPoint id="np1" playOrder="1">
  <navLabel><text>One</text></navLabel><content src="ch1.xhtml"/>
</navPoint></navMap>
</ncx>
"#);
    assert(NCX@ == r#"<?xml version="1.0" encoding="UTF-8"?>
<ncx xmlns="http://www.daisy.org/z3986/2005/ncx/" version="2005-1">
<head><meta name="dtb:uid" content="urn:uuid:f2-fixture"/></head>
<docTitle><text>Fixture</text></docTitle>
<navMap><navPoint id="np1" playOrder="1">
  <navLabel><text>One</text></navLabel><content src="ch1.xhtml"/>
</navPoint></navMap>
</ncx>
"#@);
    reveal_strlit(r#"<?xml version="1.0" encoding="UTF-8"?>
<html xmlns="http://www.w3.org/1999/xhtml"><head><title>One</title></head>
<body><p id="a" class="x">Hello.</p></body></html>
"#);
    assert(CHAPTER@ == r#"<?xml version="1.0" encoding="UTF-8"?>
<html xmlns="http://www.w3.org/1999/xhtml"><head><title>One</title></head>
<body><p id="a" class="x">Hello.</p></body></html>
"#@);
    reveal_strlit(r#"<?xml version="1.0" encoding="UTF-8"?>
<container version="1.0" xmlns="urn:oasis:names:tc:opendocument:xmlns:container">
  <rootfiles><rootfile full-path="OEBPS/package.opf"
    media-type="application/oebps-package+xml"/></rootfiles>
</container>
"#);
    assert(CONTAINER@ == r#"<?xml version="1.0" encoding="UTF-8"?>
<container version="1.0" xmlns="urn:oasis:names:tc:opendocument:xmlns:container">
  <rootfiles><rootfile full-path="OEBPS/package.opf"
    media-type="application/oebps-package+xml"/></rootfiles>
</container>
"#@);
}

/// Replacing every occurrence of a pattern grows a text at most by the
/// replacement's length per character, and once more.
pub proof fn lemma_replaced_len(s: Seq<char>, from: Seq<char>, to: Seq<char>)
    ensures
        replaced(s, from, to).len() <= (s.len() + 1) * (to.len() + 1),
    decreases s.len(),
{
    let sl = s.len() as int;
    let tl = to.len() as int;
    if from.len() == 0 {
        if s.len() > 0 {
            lemma_replaced_len(s.drop_first(), from, to);
            assert(tl + 1 + sl * (tl + 1) <= (sl + 1) * (tl + 1)) by (nonlinear_arith)
                requires
                    tl >= 0,
            ;
        } else {
            assert((sl + 1) * (tl + 1) == tl + 1) by (nonlinear_arith)
                requires
                    sl == 0,
            ;
        }
    } else if s.len() < from.len() {
        assert(sl <= (sl + 1) * (tl + 1)) by (nonlinear_arith)
            requires
                sl >= 0,
                tl >= 0,
        ;
    } else if s.take(from.len() as int) == from {
        lemma_replaced_len(s.skip(from.len() as int), from, to);
        let fl = from.len() as int;
        assert(tl + (sl - fl + 1) * (tl + 1) <= (sl + 1) * (tl + 1)) by (nonlinear_arith)
            requires
                fl >= 1,
                tl >= 0,
        ;
    } else {
        lemma_replaced_len(s.drop_first(), from, to);
        assert(1 + sl * (tl + 1) <= (sl + 1) * (tl + 1)) by (nonlinear_arith)
            requires
                tl >= 0,
        ;
    }
}

/// The base plan is one the writer takes, under any comment it takes.
pub proof fn lemma_base_buildable(c: Seq<char>)
    requires
        c.len() < 16384,
    ensures
        buildable(base_plan_spec(), c),
        names_fit(base_plan_spec()),
{
    reveal_strlit("mimetype");
    reveal_strlit("META-INF/container.xml");
    reveal_strlit("OEBPS/package.opf");
    reveal_strlit("OEBPS/nav.xhtml");
    reveal_strlit("OEBPS/toc.ncx");
    reveal_strlit("OEBPS/ch1.xhtml");
    reveal_strlit("application/epub+zip");
    lemma_texts_short();
    lemma_utf8_len("application/epub+zip"@);
    lemma_utf8_len(CONTAINER@);
    lemma_utf8_len(OPF@);
    lemma_utf8_len(NAV@);
    lemma_utf8_len(NCX@);
    lemma_utf8_len(CHAPTER@);
    let p = base_plan_spec();
    assert("OEBPS/nav.xhtml"@[6] != "OEBPS/ch1.xhtml"@[6]);
    assert forall|i: int, j: int| 0 <= i < j < p.len() implies (#[trigger] p[i]).name != (#[trigger] p[j]).name by {
        if p[i].name == p[j].name {
            assert(p[i].name.len() == p[j].name.len());
            assert(p[i].name[6] == p[j].name[6]);
        }
    }
}

/// Changing plans without touching their names, to bodies and extra fields
/// the writer takes, keeps them buildable.
pub proof fn lemma_mutated_buildable(p: Seq<PlanView>, c: Seq<char>, name: Seq<char>, f: spec_fn(PlanView) -> PlanView)
    requires
        buildable(p, c),
        forall|q: PlanView| #[trigger] f(q).name == q.name && (f(q).body == q.body || f(q).body.len() <= ENTRY_LIMIT)
            && (f(q).extra == q.extra || extra_ok(f(q).extra)),
    ensures
        buildable(mutated(p, name, f), c),
{
    if exists|i: int| first_plan(p, name, i) {
        let i = choose|i: int| first_plan(p, name, i);
        let u = p.update(i, f(p[i]));
        assert(f(p[i]).name == p[i].name);
        assert forall|a: int, b: int| 0 <= a < b < u.len() implies (#[trigger] u[a]).name != (#[trigger] u[b]).name by {
            assert(u[a].name == p[a].name && u[b].name == p[b].name);
        }
        assert forall|k: int| 0 <= k < u.len() implies extra_ok((#[trigger] u[k]).extra) && u[k].body.len() <= ENTRY_LIMIT by {
            if k == i {
                assert(extra_ok(p[i].extra) && p[i].body.len() <= ENTRY_LIMIT);
            } else {
                assert(u[k] == p[k]);
            }
        }
    }
}

} // verus!
