//! Producer-string extraction, for the coverage gate.
//!
//! Diversity is counted in distinct producers rather than files, which only works if
//! the producer can be named, so this digs it out of wherever the toolchain
//! left it. There is no standard field: `dc:contributor` is the conventional
//! one, `<meta name="generator">` is common, and several tools leave nothing
//! at all — which is itself a producer class worth counting.

use vstd::prelude::*;
use crate::archive::{lookup, Archive, ArchiveView, Entry, EntryView};
use crate::detect::{first_opf, has_opf};
use crate::family::{trim_by, trim_string};
use crate::scan::{ascii_bytes, lit_bytes};
use crate::text::{
    bytes_eq, chars_at_ci, chars_of, copy_bytes, ends_with_ci, ends_with_ci_exec, lossy_text,
    lower, lower_exec, opt_bytes, utf8_lossy,
};
use crate::xml::{
    attr_views, is_terminal, next_event, tag_attrs, well_terminated, xml_events, xml_pending, xml_reader,
    RawAttr, XmlEvent, XmlEventView,
};

verus! {

/// What the package document says about itself.
#[derive(Debug, Clone)]
pub struct PackageInfo {
    /// Producer string, if the package declares one.
    pub producer: Option<String>,
    /// `version` attribute of the `<package>` element.
    pub version: Option<String>,
    /// Manifest hrefs, for the manifest-mismatch check.
    pub manifest_hrefs: Vec<String>,
}

/// What a package document declares.
pub struct PackageView {
    pub producer: Option<Seq<char>>,
    pub version: Option<Seq<char>>,
    pub hrefs: Seq<Seq<char>>,
}

/// What has been read of a package document so far.
pub struct OpfState {
    pub producer: Option<Seq<char>>,
    pub version: Option<Seq<char>>,
    pub hrefs: Seq<Seq<char>>,
    /// A contributor element was opened and its text not yet seen.
    pub pending: bool,
}

/// The character views of a list of strings.
pub open spec fn string_views(v: Seq<String>) -> Seq<Seq<char>> {
    Seq::new(v.len(), |i: int| v[i]@)
}

impl View for PackageInfo {
    type V = PackageView;

    open spec fn view(&self) -> PackageView {
        PackageView {
            producer: crate::text::opt_view(self.producer),
            version: crate::text::opt_view(self.version),
            hrefs: string_views(self.manifest_hrefs@),
        }
    }
}

/// Nothing read yet.
pub open spec fn opf_start() -> OpfState {
    OpfState { producer: None, version: None, hrefs: Seq::empty(), pending: false }
}

/// Bytes, ASCII-lowercased.
pub open spec fn lowered(b: Seq<u8>) -> Seq<u8> {
    Seq::new(b.len(), |i: int| lower(b[i]))
}

/// `i` is the first `:` of a name.
pub open spec fn first_colon(name: Seq<u8>, i: int) -> bool {
    0 <= i < name.len() && name[i] == 58 && forall|j: int| 0 <= j < i ==> name[j] != 58
}

/// A name without its namespace prefix: everything after the first `:`.
pub open spec fn local_part(name: Seq<u8>) -> Seq<u8> {
    if exists|i: int| 0 <= i < name.len() && name[i] == 58 {
        name.subrange((choose|i: int| first_colon(name, i)) + 1, name.len() as int)
    } else {
        name
    }
}

/// Whether an attribute key names `key`, case-folded or exactly.
pub open spec fn key_is(k: Seq<u8>, key: Seq<u8>, fold: bool) -> bool {
    if fold { lowered(k) == key } else { k == key }
}

/// The value of the first attribute named `key`, skipping refused ones.
pub open spec fn first_value(a: Seq<Option<(Seq<u8>, Seq<u8>)>>, key: Seq<u8>, fold: bool) -> Option<Seq<u8>>
    decreases a.len(),
{
    if a.len() == 0 {
        None
    } else {
        match a[0] {
            Some((k, v)) => if key_is(k, key, fold) { Some(v) } else { first_value(a.drop_first(), key, fold) },
            None => first_value(a.drop_first(), key, fold),
        }
    }
}

/// The value of the last attribute named `key`, skipping refused ones.
pub open spec fn last_value(a: Seq<Option<(Seq<u8>, Seq<u8>)>>, key: Seq<u8>, fold: bool) -> Option<Seq<u8>>
    decreases a.len(),
{
    if a.len() == 0 {
        None
    } else {
        match a.last() {
            Some((k, v)) => if key_is(k, key, fold) { Some(v) } else { last_value(a.drop_last(), key, fold) },
            None => last_value(a.drop_last(), key, fold),
        }
    }
}

/// Every value of an attribute named `key`, in order, skipping refused ones.
pub open spec fn all_values(a: Seq<Option<(Seq<u8>, Seq<u8>)>>, key: Seq<u8>) -> Seq<Seq<u8>>
    decreases a.len(),
{
    if a.len() == 0 {
        Seq::empty()
    } else {
        let rest = all_values(a.drop_last(), key);
        match a.last() {
            Some((k, v)) => if k == key { rest.push(v) } else { rest },
            None => rest,
        }
    }
}

/// Decoded text of raw values.
pub open spec fn lossy_all(vs: Seq<Seq<u8>>) -> Seq<Seq<char>> {
    Seq::new(vs.len(), |i: int| lossy_text(vs[i]))
}

/// Decoded text of an optional raw value.
pub open spec fn lossy_opt(v: Option<Seq<u8>>) -> Option<Seq<char>> {
    match v {
        Some(b) => Some(lossy_text(b)),
        None => None,
    }
}

/// Whether a string equals `generator`, ignoring ASCII case.
pub open spec fn is_generator_name(s: Seq<char>) -> bool {
    s.len() == 9 && chars_at_ci(s, "generator"@, 0)
}

/// Some attribute says `name="generator"`, ignoring case in key and value.
pub open spec fn names_generator(a: Seq<Option<(Seq<u8>, Seq<u8>)>>) -> bool {
    exists|i: int| 0 <= i < a.len() && (#[trigger] a[i]) is Some && lowered(a[i].unwrap().0) == ascii_bytes("name"@)
        && is_generator_name(lossy_text(a[i].unwrap().1))
}

/// What a start or empty tag does to the state.
pub open spec fn opf_tag(st: OpfState, name: Seq<u8>, a: Seq<Option<(Seq<u8>, Seq<u8>)>>) -> OpfState {
    let local = local_part(lowered(name));
    if local == ascii_bytes("package"@) {
        OpfState {
            producer: st.producer,
            version: match last_value(a, ascii_bytes("version"@), false) {
                Some(v) => Some(lossy_text(v)),
                None => st.version,
            },
            hrefs: st.hrefs,
            pending: st.pending,
        }
    } else if local == ascii_bytes("item"@) {
        OpfState {
            producer: st.producer,
            version: st.version,
            hrefs: st.hrefs + lossy_all(all_values(a, ascii_bytes("href"@))),
            pending: st.pending,
        }
    } else if local == ascii_bytes("meta"@) {
        if names_generator(a) && st.producer is None {
            OpfState {
                producer: lossy_opt(last_value(a, ascii_bytes("content"@), true)),
                version: st.version,
                hrefs: st.hrefs,
                pending: st.pending,
            }
        } else {
            st
        }
    } else if local == ascii_bytes("contributor"@) {
        OpfState { producer: st.producer, version: st.version, hrefs: st.hrefs, pending: true }
    } else {
        st
    }
}

/// What one event does to the state.
pub open spec fn opf_step(st: OpfState, e: XmlEventView) -> OpfState {
    match e {
        XmlEventView::Start(n, a) => opf_tag(st, n, a),
        XmlEventView::Empty(n, a) => opf_tag(st, n, a),
        XmlEventView::Text(t) => if st.pending {
            let text = trim_by(0, lossy_text(t));
            OpfState {
                producer: if st.producer is None && text.len() > 0 { Some(text) } else { st.producer },
                version: st.version,
                hrefs: st.hrefs,
                pending: false,
            }
        } else {
            st
        },
        XmlEventView::End(_) => OpfState { producer: st.producer, version: st.version, hrefs: st.hrefs, pending: false },
        _ => st,
    }
}

/// The state after reading events up to the first end or refusal.
pub open spec fn opf_run(st: OpfState, ev: Seq<XmlEventView>) -> OpfState
    decreases ev.len(),
{
    if ev.len() == 0 || is_terminal(ev[0]) {
        st
    } else {
        opf_run(opf_step(st, ev[0]), ev.drop_first())
    }
}

/// What a package document declares.
pub open spec fn opf_info(data: Seq<u8>) -> PackageView {
    let st = opf_run(opf_start(), xml_events(data, true));
    PackageView { producer: st.producer, version: st.version, hrefs: st.hrefs }
}

/// The `full-path` of the first `rootfile` that carries one, in a container
/// document's events.
pub open spec fn container_path_in(ev: Seq<XmlEventView>) -> Option<Seq<char>>
    decreases ev.len(),
{
    if ev.len() == 0 || is_terminal(ev[0]) {
        None
    } else {
        let here = match ev[0] {
            XmlEventView::Start(n, a) => rootfile_path(n, a),
            XmlEventView::Empty(n, a) => rootfile_path(n, a),
            _ => None,
        };
        if here is Some { here } else { container_path_in(ev.drop_first()) }
    }
}

/// The `full-path` of a tag, if it is a `rootfile` that carries one.
pub open spec fn rootfile_path(n: Seq<u8>, a: Seq<Option<(Seq<u8>, Seq<u8>)>>) -> Option<Seq<char>> {
    if n == ascii_bytes("rootfile"@) {
        lossy_opt(first_value(a, ascii_bytes("full-path"@), false))
    } else {
        None
    }
}

/// The package document: the container's `rootfile`, where it names an entry
/// that exists, else the first entry named like one.
pub open spec fn opf_entry(a: ArchiveView) -> Option<EntryView> {
    let es = a.entries;
    let via = match lookup(es, "META-INF/container.xml"@) {
        Some(c) => match container_path_in(xml_events(c.data, true)) {
            Some(p) => lookup(es, p),
            None => None,
        },
        None => None,
    };
    if via is Some { via } else { opf_fallback(es) }
}

/// The first entry named like a package document, if any.
pub open spec fn opf_fallback(es: Seq<EntryView>) -> Option<EntryView> {
    if has_opf(es) { Some(es[choose|i: int| first_opf(es, i)]) } else { None }
}

/// What an archive's package document declares; nothing where there is none.
pub open spec fn package_of(a: ArchiveView) -> PackageView {
    match opf_entry(a) {
        Some(e) => opf_info(e.data),
        None => PackageView { producer: None, version: None, hrefs: Seq::empty() },
    }
}

/// The bytes, ASCII-lowercased.
fn lower_bytes(b: &[u8]) -> (r: Vec<u8>)
    ensures
        r@ == lowered(b@),
{
    let mut r: Vec<u8> = Vec::new();
    let mut i: usize = 0;
    while i < b.len()
        invariant
            i <= b@.len(),
            r@ =~= Seq::new(i as nat, |k: int| lower(b@[k])),
        decreases b@.len() - i,
    {
        r.push(lower_exec(b[i]));
        i = i + 1;
    }
    r
}

/// The name after its namespace prefix.
fn local_name(name: &[u8]) -> (r: Vec<u8>)
    ensures
        r@ == local_part(name@),
{
    let mut i: usize = 0;
    while i < name.len()
        invariant
            i <= name@.len(),
            forall|j: int| 0 <= j < i ==> name@[j] != 58,
        decreases name@.len() - i,
    {
        if name[i] == 58 {
            proof {
                assert(first_colon(name@, i as int));
                let c = choose|c: int| first_colon(name@, c);
                if c < i as int { assert(name@[c] != 58); }
                if (i as int) < c { assert(name@[i as int] != 58); }
            }
            let mut r: Vec<u8> = Vec::new();
            let mut k: usize = i + 1;
            while k < name.len()
                invariant
                    i < name@.len(),
                    i + 1 <= k <= name@.len(),
                    r@ =~= name@.subrange(i + 1, k as int),
                decreases name@.len() - k,
            {
                r.push(name[k]);
                k = k + 1;
            }
            return r;
        }
        i = i + 1;
    }
    copy_bytes(name)
}

/// Whether an attribute key names `key`.
fn key_is_exec(k: &[u8], key: &[u8], fold: bool) -> (r: bool)
    ensures
        r == key_is(k@, key@, fold),
{
    if fold {
        let l = lower_bytes(k);
        bytes_eq(l.as_slice(), key)
    } else {
        bytes_eq(k, key)
    }
}

/// The first value of an attribute named `key`.
fn first_value_exec(a: &Vec<RawAttr>, key: &[u8], fold: bool) -> (r: Option<Vec<u8>>)
    ensures
        opt_bytes(r) == first_value(attr_views(a@), key@, fold),
{
    let ghost av = attr_views(a@);
    let mut i: usize = 0;
    assert(av.subrange(0, av.len() as int) =~= av);
    while i < a.len()
        invariant
            av == attr_views(a@),
            i <= a@.len(),
            first_value(av, key@, fold) == first_value(av.subrange(i as int, av.len() as int), key@, fold),
        decreases a@.len() - i,
    {
        let ghost rest = av.subrange(i as int, av.len() as int);
        assert(rest.drop_first() =~= av.subrange(i + 1, av.len() as int));
        match &a[i] {
            Some((k, v)) => {
                if key_is_exec(k.as_slice(), key, fold) {
                    return Some(copy_bytes(v.as_slice()));
                }
            },
            None => {},
        }
        i = i + 1;
    }
    None
}

/// The last value of an attribute named `key`.
fn last_value_exec(a: &Vec<RawAttr>, key: &[u8], fold: bool) -> (r: Option<Vec<u8>>)
    ensures
        opt_bytes(r) == last_value(attr_views(a@), key@, fold),
{
    let ghost av = attr_views(a@);
    let mut out: Option<Vec<u8>> = None;
    let mut i: usize = 0;
    assert(av.take(0).len() == 0);
    while i < a.len()
        invariant
            av == attr_views(a@),
            i <= a@.len(),
            opt_bytes(out) == last_value(av.take(i as int), key@, fold),
        decreases a@.len() - i,
    {
        assert(av.take(i + 1).drop_last() =~= av.take(i as int));
        assert(av.take(i + 1).last() == av[i as int]);
        match &a[i] {
            Some((k, v)) => {
                if key_is_exec(k.as_slice(), key, fold) {
                    out = Some(copy_bytes(v.as_slice()));
                }
            },
            None => {},
        }
        i = i + 1;
    }
    assert(av.take(a@.len() as int) =~= av);
    out
}

/// Every `href` value of an item, decoded.
fn hrefs_of(a: &Vec<RawAttr>, out: &mut Vec<String>)
    ensures
        string_views(final(out)@) == string_views(old(out)@) + lossy_all(all_values(attr_views(a@), ascii_bytes("href"@))),
{
    proof {
        reveal_strlit("href");
    }
    let key = lit_bytes("href");
    let ghost av = attr_views(a@);
    let ghost start = string_views(out@);
    let mut i: usize = 0;
    assert(lossy_all(all_values(av.take(0), key@)) =~= Seq::empty());
    assert(start + Seq::empty() =~= start);
    while i < a.len()
        invariant
            av == attr_views(a@),
            key@ == ascii_bytes("href"@),
            i <= a@.len(),
            string_views(out@) == start + lossy_all(all_values(av.take(i as int), key@)),
        decreases a@.len() - i,
    {
        assert(av.take(i + 1).drop_last() =~= av.take(i as int));
        assert(av.take(i + 1).last() == av[i as int]);
        let ghost before = out@;
        match &a[i] {
            Some((k, v)) => {
                if bytes_eq(k.as_slice(), key.as_slice()) {
                    out.push(utf8_lossy(v.as_slice()));
                    assert(string_views(out@) =~= string_views(before).push(lossy_text(v@)));
                    assert(lossy_all(all_values(av.take(i + 1), key@)) =~= lossy_all(
                        all_values(av.take(i as int), key@),
                    ).push(lossy_text(v@)));
                } else {
                    assert(string_views(out@) =~= string_views(before));
                }
            },
            None => {},
        }
        i = i + 1;
    }
    assert(av.take(a@.len() as int) =~= av);
}

/// Whether a string equals `generator`, ignoring ASCII case.
fn is_generator_exec(s: &str) -> (r: bool)
    ensures
        r == is_generator_name(s@),
{
    proof {
        reveal_strlit("generator");
    }
    let cs = chars_of(s);
    cs.len() == 9 && crate::text::chars_at_ci_exec(&cs, "generator", 0)
}

/// Whether some attribute says `name="generator"`.
fn names_generator_exec(a: &Vec<RawAttr>) -> (r: bool)
    ensures
        r == names_generator(attr_views(a@)),
{
    proof {
        reveal_strlit("name");
    }
    let key = lit_bytes("name");
    let ghost av = attr_views(a@);
    let mut i: usize = 0;
    while i < a.len()
        invariant
            av == attr_views(a@),
            key@ == ascii_bytes("name"@),
            i <= a@.len(),
            forall|j: int| 0 <= j < i ==> !((#[trigger] av[j]) is Some && lowered(av[j].unwrap().0) == key@
                && is_generator_name(lossy_text(av[j].unwrap().1))),
        decreases a@.len() - i,
    {
        match &a[i] {
            Some((k, v)) => {
                if key_is_exec(k.as_slice(), key.as_slice(), true) && is_generator_exec(utf8_lossy(v.as_slice()).as_str()) {
                    assert(av[i as int] is Some);
                    return true;
                }
            },
            None => {},
        }
        i = i + 1;
    }
    false
}

/// Apply a start or empty tag to what has been read.
fn opf_tag_exec(info: &mut PackageInfo, pending: &mut bool, name: &[u8], a: &Vec<RawAttr>)
    ensures
        ({
            let s = opf_tag(
                OpfState { producer: crate::text::opt_view(old(info).producer), version: crate::text::opt_view(old(info).version),
                    hrefs: string_views(old(info).manifest_hrefs@), pending: *old(pending) },
                name@,
                attr_views(a@),
            );
            &&& s.producer == crate::text::opt_view(final(info).producer)
            &&& s.version == crate::text::opt_view(final(info).version)
            &&& s.hrefs == string_views(final(info).manifest_hrefs@)
            &&& s.pending == *final(pending)
        }),
{
    proof {
        reveal_strlit("package");
        reveal_strlit("item");
        reveal_strlit("meta");
        reveal_strlit("contributor");
        reveal_strlit("version");
        reveal_strlit("content");
    }
    let lname = lower_bytes(name);
    let local = local_name(lname.as_slice());
    if bytes_eq(local.as_slice(), lit_bytes("package").as_slice()) {
        match last_value_exec(a, lit_bytes("version").as_slice(), false) {
            Some(v) => {
                info.version = Some(utf8_lossy(v.as_slice()));
            },
            None => {},
        }
    } else if bytes_eq(local.as_slice(), lit_bytes("item").as_slice()) {
        hrefs_of(a, &mut info.manifest_hrefs);
    } else if bytes_eq(local.as_slice(), lit_bytes("meta").as_slice()) {
        if names_generator_exec(a) && info.producer.is_none() {
            info.producer = match last_value_exec(a, lit_bytes("content").as_slice(), true) {
                Some(v) => Some(utf8_lossy(v.as_slice())),
                None => None,
            };
        }
    } else if bytes_eq(local.as_slice(), lit_bytes("contributor").as_slice()) {
        *pending = true;
    }
}

/// Read what a package document declares: producer, version and manifest
/// hrefs. Reading stops at the end of the document or at the first thing the
/// reader refuses, keeping what was read before it.
pub fn parse_opf(data: &[u8]) -> (info: PackageInfo)
    ensures
        info@ == opf_info(data@),
{
    let mut info = PackageInfo { producer: None, version: None, manifest_hrefs: Vec::new() };
    let mut pending = false;
    let mut reader = xml_reader(data, true);
    assert(string_views(info.manifest_hrefs@) =~= Seq::empty());
    loop
        invariant
            well_terminated(xml_pending(reader)),
            opf_run(opf_start(), xml_events(data@, true)) == opf_run(
                OpfState { producer: crate::text::opt_view(info.producer), version: crate::text::opt_view(info.version),
                    hrefs: string_views(info.manifest_hrefs@), pending },
                xml_pending(reader),
            ),
        decreases xml_pending(reader).len(),
    {
        let ghost pend = xml_pending(reader);
        let ev = next_event(&mut reader);
        if !matches!(ev, XmlEvent::Eof | XmlEvent::Error) {
            proof {
                assert(pend.len() > 1);
                assert forall|i: int| 0 <= i < pend.drop_first().len() - 1 implies !is_terminal(
                    #[trigger] pend.drop_first()[i],
                ) by {
                    assert(pend.drop_first()[i] == pend[i + 1]);
                }
            }
        }
        match &ev {
            XmlEvent::Start(n, t) | XmlEvent::Empty(n, t) => {
                let a = tag_attrs(t);
                opf_tag_exec(&mut info, &mut pending, n.as_slice(), &a);
            },
            XmlEvent::Text(t) => {
                if pending {
                    if info.producer.is_none() {
                        let text = trim_string(0, utf8_lossy(t.as_slice()).as_str());
                        if text.unicode_len() > 0 {
                            info.producer = Some(text);
                        }
                    }
                    pending = false;
                }
            },
            XmlEvent::End(_) => {
                pending = false;
            },
            XmlEvent::Eof | XmlEvent::Error => {
                return info;
            },
            _ => {},
        }
    }
}

/// The `full-path` of the container's `rootfile`.
fn full_path_from_container(data: &[u8]) -> (r: Option<String>)
    ensures
        crate::text::opt_view(r) == container_path_in(xml_events(data@, true)),
{
    proof {
        reveal_strlit("rootfile");
        reveal_strlit("full-path");
    }
    let rootfile = lit_bytes("rootfile");
    let full_path = lit_bytes("full-path");
    let mut reader = xml_reader(data, true);
    loop
        invariant
            well_terminated(xml_pending(reader)),
            rootfile@ == ascii_bytes("rootfile"@),
            full_path@ == ascii_bytes("full-path"@),
            container_path_in(xml_events(data@, true)) == container_path_in(xml_pending(reader)),
        decreases xml_pending(reader).len(),
    {
        let ghost pend = xml_pending(reader);
        let ev = next_event(&mut reader);
        if !matches!(ev, XmlEvent::Eof | XmlEvent::Error) {
            proof {
                assert(pend.len() > 1);
                assert forall|i: int| 0 <= i < pend.drop_first().len() - 1 implies !is_terminal(
                    #[trigger] pend.drop_first()[i],
                ) by {
                    assert(pend.drop_first()[i] == pend[i + 1]);
                }
            }
        }
        match &ev {
            XmlEvent::Start(n, t) | XmlEvent::Empty(n, t) => {
                if bytes_eq(n.as_slice(), rootfile.as_slice()) {
                    let a = tag_attrs(t);
                    match first_value_exec(&a, full_path.as_slice(), false) {
                        Some(v) => {
                            return Some(utf8_lossy(v.as_slice()));
                        },
                        None => {},
                    }
                }
            },
            XmlEvent::Eof | XmlEvent::Error => {
                return None;
            },
            _ => {},
        }
    }
}

/// Locate the package document via `META-INF/container.xml`, falling back to
/// the first entry named like one. A malformed container is common enough in
/// the wild that giving up on it would silently under-count producers.
pub fn find_opf(archive: &Archive) -> (r: Option<&Entry>)
    ensures
        match r {
            Some(e) => opf_entry(archive@) == Some(e@),
            None => opf_entry(archive@) is None,
        },
{
    let container = archive.get("META-INF/container.xml");
    if let Some(c) = container {
        let path = full_path_from_container(c.data.as_slice());
        if let Some(p) = path {
            let found = archive.get(p.as_str());
            if let Some(e) = found {
                return Some(e);
            }
        }
    }
    let ghost es = archive@.entries;
    assert(opf_entry(archive@) == opf_fallback(es));
    let mut j: usize = 0;
    while j < archive.entries.len()
        invariant
            es == archive@.entries,
            opf_entry(archive@) == opf_fallback(es),
            j <= es.len(),
            forall|k: int| 0 <= k < j ==> !ends_with_ci((#[trigger] es[k]).name, ".opf"@),
        decreases es.len() - j,
    {
        assert(archive.entries@[j as int]@ == es[j as int]);
        if ends_with_ci_exec(&chars_of(archive.entries[j].name.as_str()), ".opf") {
            proof {
                assert(first_opf(es, j as int));
                assert(has_opf(es));
                let c = choose|c: int| first_opf(es, c);
                if c < j { assert(!ends_with_ci(es[c].name, ".opf"@)); }
                if j < c { assert(!ends_with_ci(es[j as int].name, ".opf"@)); }
            }
            return Some(&archive.entries[j]);
        }
        j = j + 1;
    }
    None
}

/// Find the package document and read what it declares.
pub fn read_package(archive: &Archive) -> (info: PackageInfo)
    ensures
        info@ == package_of(archive@),
{
    match find_opf(archive) {
        Some(opf) => parse_opf(opf.data.as_slice()),
        None => {
            let info = PackageInfo { producer: None, version: None, manifest_hrefs: Vec::new() };
            assert(string_views(info.manifest_hrefs@) =~= Seq::empty());
            info
        },
    }
}

} // verus!
