//! The detectors behind the catalogue's first two states.
//!
//! Everything here is a scan rather than a parse: the catalogue's question is
//! "does this corpus contain any", and a parser would fail on exactly the
//! malformed input most worth counting. A detector reports for a book only
//! when there was something for it to look at: the content detectors need an
//! XML-like entry, the entry detectors an entry, the package detectors an OPF.

use vstd::prelude::*;
use crate::archive::{Archive, ArchiveView, EntryView, has_name};
use crate::catalogue::{detection_of, lemma_first_detection};
use crate::classify::{chars_le, lemma_chars_le_antisymmetric, lemma_chars_le_transitive};
use crate::scan::{ascii_bytes, lit_bytes, has_pi, has_pi_exec, uncommon_prefix,
    uncommon_prefix_exec, attrs_out_of_order, attrs_out_of_order_exec};
use crate::text::{contains_seq, contains_bytes, occurs_at, occurs_at_exec, ends_with_ci,
    ends_with_ci_exec, chars_of, str_eq};

verus! {

/// Names that mark an entry as XML-like, compared ignoring ASCII case.
pub open spec fn xmlish_name(name: Seq<char>) -> bool {
    ends_with_ci(name, ".xhtml"@) || ends_with_ci(name, ".xml"@) || ends_with_ci(name, ".opf"@)
        || ends_with_ci(name, ".ncx"@) || ends_with_ci(name, ".html"@) || ends_with_ci(name, ".svg"@)
}

/// Whether a name marks an XML-like entry.
pub fn xmlish_name_exec(name: &str) -> (r: bool)
    ensures
        r == xmlish_name(name@),
{
    let cs = chars_of(name);
    ends_with_ci_exec(&cs, ".xhtml") || ends_with_ci_exec(&cs, ".xml") || ends_with_ci_exec(&cs, ".opf")
        || ends_with_ci_exec(&cs, ".ncx") || ends_with_ci_exec(&cs, ".html") || ends_with_ci_exec(
        &cs,
        ".svg",
    )
}

/// The constructs looked for inside XML-like entries, in report order.
pub open spec fn xml_feature(k: int, d: Seq<u8>) -> bool {
    if k == 0 {
        contains_seq(d, ascii_bytes("<!--"@))
    } else if k == 1 {
        has_pi(d)
    } else if k == 2 {
        contains_seq(d, ascii_bytes("<![CDATA["@))
    } else if k == 3 {
        contains_seq(d, ascii_bytes("<!DOCTYPE"@))
    } else if k == 4 {
        contains_seq(d, ascii_bytes("<!ENTITY"@))
    } else if k == 5 {
        occurs_at(d, seq![0xEFu8, 0xBBu8, 0xBFu8], 0)
    } else if k == 6 {
        contains_seq(d, seq![13u8, 10u8])
    } else if k == 7 {
        contains_seq(d, ascii_bytes("standalone="@))
    } else if k == 8 {
        uncommon_prefix(d)
    } else if k == 9 {
        attrs_out_of_order(d)
    } else if k == 10 {
        contains_seq(d, ascii_bytes("<script"@))
    } else {
        contains_seq(d, ascii_bytes("src=\"http"@)) || contains_seq(d, ascii_bytes("href=\"http"@))
    }
}

/// The number of content detectors.
pub const XML_FEATURES: usize = 12;

/// Catalogue ids of the content detectors, in report order.
pub open spec fn xml_feature_id(k: int) -> Seq<char> {
    if k == 0 { "xml-comment"@ }
    else if k == 1 { "processing-instruction"@ }
    else if k == 2 { "cdata-section"@ }
    else if k == 3 { "doctype-declaration"@ }
    else if k == 4 { "internal-entity"@ }
    else if k == 5 { "byte-order-mark"@ }
    else if k == 6 { "crlf-line-endings"@ }
    else if k == 7 { "xml-standalone-declaration"@ }
    else if k == 8 { "uncommon-namespace-prefix"@ }
    else if k == 9 { "non-alphabetical-attribute-order"@ }
    else if k == 10 { "scripted-content"@ }
    else { "remote-resource"@ }
}

fn xml_feature_id_exec(k: usize) -> (s: &'static str)
    requires
        k < XML_FEATURES,
    ensures
        s@ == xml_feature_id(k as int),
{
    if k == 0 { "xml-comment" }
    else if k == 1 { "processing-instruction" }
    else if k == 2 { "cdata-section" }
    else if k == 3 { "doctype-declaration" }
    else if k == 4 { "internal-entity" }
    else if k == 5 { "byte-order-mark" }
    else if k == 6 { "crlf-line-endings" }
    else if k == 7 { "xml-standalone-declaration" }
    else if k == 8 { "uncommon-namespace-prefix" }
    else if k == 9 { "non-alphabetical-attribute-order" }
    else if k == 10 { "scripted-content" }
    else { "remote-resource" }
}

fn xml_feature_exec(k: usize, d: &[u8]) -> (r: bool)
    requires
        k < XML_FEATURES,
    ensures
        r == xml_feature(k as int, d@),
{
    proof {
        reveal_strlit("<!--");
        reveal_strlit("<![CDATA[");
        reveal_strlit("<!DOCTYPE");
        reveal_strlit("<!ENTITY");
        reveal_strlit("standalone=");
        reveal_strlit("<script");
        reveal_strlit("src=\"http");
        reveal_strlit("href=\"http");
    }
    if k == 0 {
        contains_bytes(d, lit_bytes("<!--").as_slice())
    } else if k == 1 {
        has_pi_exec(d)
    } else if k == 2 {
        contains_bytes(d, lit_bytes("<![CDATA[").as_slice())
    } else if k == 3 {
        contains_bytes(d, lit_bytes("<!DOCTYPE").as_slice())
    } else if k == 4 {
        contains_bytes(d, lit_bytes("<!ENTITY").as_slice())
    } else if k == 5 {
        let bom: Vec<u8> = vec![0xEFu8, 0xBBu8, 0xBFu8];
        assert(bom@ =~= seq![0xEFu8, 0xBBu8, 0xBFu8]);
        occurs_at_exec(d, bom.as_slice(), 0)
    } else if k == 6 {
        let crlf: Vec<u8> = vec![13u8, 10u8];
        assert(crlf@ =~= seq![13u8, 10u8]);
        contains_bytes(d, crlf.as_slice())
    } else if k == 7 {
        contains_bytes(d, lit_bytes("standalone=").as_slice())
    } else if k == 8 {
        uncommon_prefix_exec(d)
    } else if k == 9 {
        attrs_out_of_order_exec(d)
    } else if k == 10 {
        contains_bytes(d, lit_bytes("<script").as_slice())
    } else {
        contains_bytes(d, lit_bytes("src=\"http").as_slice()) || contains_bytes(
            d,
            lit_bytes("href=\"http").as_slice(),
        )
    }
}

/// Some XML-like entry among the first `n` holds content construct `k`.
pub open spec fn xml_hit(es: Seq<EntryView>, k: int, n: int) -> bool {
    exists|j: int| 0 <= j < n && xmlish_name((#[trigger] es[j]).name) && xml_feature(k, es[j].data)
}

/// Some XML-like entry exists.
pub open spec fn any_xmlish(es: Seq<EntryView>) -> bool {
    exists|j: int| 0 <= j < es.len() && xmlish_name((#[trigger] es[j]).name)
}

/// The per-entry container constructs, in report order.
pub open spec fn entry_feature(k: int, e: EntryView) -> bool {
    if k == 0 {
        e.method == "Stored"@ && e.name != "mimetype"@
    } else if k == 1 {
        e.comment.len() > 0
    } else if k == 2 {
        e.extra.len() > 0
    } else {
        !vstd::utf8::is_ascii_chars(e.name)
    }
}

/// Catalogue ids of the per-entry detectors, in report order.
pub open spec fn entry_feature_id(k: int) -> Seq<char> {
    if k == 0 { "stored-entry-beyond-mimetype"@ }
    else if k == 1 { "zip-entry-comment"@ }
    else if k == 2 { "zip-extra-field"@ }
    else { "non-ascii-entry-name"@ }
}

/// Some entry among the first `n` shows per-entry construct `k`.
pub open spec fn entry_hit(es: Seq<EntryView>, k: int, n: int) -> bool {
    exists|j: int| 0 <= j < n && entry_feature(k, #[trigger] es[j])
}

/// The package document a content scan reads: the first entry whose name
/// ends in `.opf`, ignoring ASCII case.
pub open spec fn first_opf(es: Seq<EntryView>, i: int) -> bool {
    0 <= i < es.len() && ends_with_ci(es[i].name, ".opf"@) && forall|j: int|
        0 <= j < i ==> !ends_with_ci((#[trigger] es[j]).name, ".opf"@)
}

/// Whether some entry is named like a package document.
pub open spec fn has_opf(es: Seq<EntryView>) -> bool {
    exists|i: int| 0 <= i < es.len() && ends_with_ci((#[trigger] es[i]).name, ".opf"@)
}

/// The first package document's bytes.
pub open spec fn opf_data(es: Seq<EntryView>) -> Seq<u8> {
    es[choose|i: int| first_opf(es, i)].data
}

/// Every detection a book supports: catalogue id and whether the construct
/// was seen. Ids appear only when their detector had something to look at.
pub open spec fn detection_list(a: ArchiveView) -> Seq<(Seq<char>, bool)> {
    let es = a.entries;
    let xml = if any_xmlish(es) {
        Seq::new(12, |k: int| (xml_feature_id(k), xml_hit(es, k, es.len() as int)))
    } else {
        Seq::empty()
    };
    let per_entry = if es.len() > 0 {
        Seq::new(4, |k: int| (entry_feature_id(k), entry_hit(es, k, es.len() as int)))
    } else {
        Seq::empty()
    };
    let opf = if has_opf(es) {
        let d = opf_data(es);
        seq![
            ("epub2-package"@, contains_seq(d, ascii_bytes("version=\"2."@))),
            ("opf-guide-element"@, contains_seq(d, ascii_bytes("<guide"@)) || contains_seq(
                d,
                ascii_bytes(":guide"@),
            )),
        ]
    } else {
        Seq::empty()
    };
    xml + per_entry + seq![("archive-comment"@, a.comment.len() > 0)] + opf + seq![
        ("ncx-present"@, exists|j: int| 0 <= j < es.len() && ends_with_ci((#[trigger] es[j]).name, ".ncx"@)),
        ("encryption-xml"@, has_name(es, "META-INF/encryption.xml"@)),
    ]
}

/// The character views of id/verdict pairs.
pub open spec fn pair_views(s: Seq<(&str, bool)>) -> Seq<(Seq<char>, bool)> {
    Seq::new(s.len(), |i: int| (s[i].0@, s[i].1))
}

/// Pushing a pair pushes its view.
pub proof fn lemma_pair_views_push(s: Seq<(&str, bool)>, x: (&str, bool))
    ensures
        pair_views(s.push(x)) == pair_views(s).push((x.0@, x.1)),
{
    assert(pair_views(s.push(x)) =~= pair_views(s).push((x.0@, x.1)));
}

fn entry_feature_exec(k: usize, e: &crate::archive::Entry) -> (r: bool)
    requires
        k < 4,
    ensures
        r == entry_feature(k as int, e@),
{
    if k == 0 {
        str_eq(e.method.as_str(), "Stored") && !str_eq(e.name.as_str(), "mimetype")
    } else if k == 1 {
        !e.comment.as_str().is_empty()
    } else if k == 2 {
        e.extra.len() > 0
    } else {
        !e.name.as_str().is_ascii()
    }
}

fn entry_feature_id_exec(k: usize) -> (s: &'static str)
    requires
        k < 4,
    ensures
        s@ == entry_feature_id(k as int),
{
    if k == 0 { "stored-entry-beyond-mimetype" }
    else if k == 1 { "zip-entry-comment" }
    else if k == 2 { "zip-extra-field" }
    else { "non-ascii-entry-name" }
}

/// Every detection a book supports, in the order the detectors run.
pub(crate) fn detect_by_group(archive: &Archive) -> (r: Vec<(&'static str, bool)>)
    ensures
        pair_views(r@) == detection_list(archive@),
{
    let es = &archive.entries;
    let ghost ev = archive@.entries;
    // Content constructs, over XML-like entries.
    let mut xml_hits: Vec<bool> = vec![false; XML_FEATURES];
    let mut any_xml = false;
    let mut i: usize = 0;
    while i < es.len()
        invariant
            ev == archive@.entries,
            es@ == archive.entries@,
            ev.len() == es@.len(),
            i <= es@.len(),
            xml_hits@.len() == XML_FEATURES,
            any_xml == exists|j: int| 0 <= j < i && xmlish_name((#[trigger] ev[j]).name),
            forall|k: int| 0 <= k < 12 ==> #[trigger] xml_hits@[k] == xml_hit(ev, k, i as int),
        decreases es@.len() - i,
    {
        assert(es@[i as int]@ == ev[i as int]);
        if xmlish_name_exec(es[i].name.as_str()) {
            any_xml = true;
            let mut k: usize = 0;
            while k < XML_FEATURES
                invariant
                    ev == archive@.entries,
                    es@ == archive.entries@,
                    ev.len() == es@.len(),
                    i < es@.len(),
                    xmlish_name(ev[i as int].name),
                    es@[i as int]@ == ev[i as int],
                    k <= XML_FEATURES,
                    xml_hits@.len() == XML_FEATURES,
                    forall|m: int| 0 <= m < k ==> #[trigger] xml_hits@[m] == xml_hit(ev, m, i + 1),
                    forall|m: int| k <= m < 12 ==> #[trigger] xml_hits@[m] == xml_hit(ev, m, i as int),
                decreases XML_FEATURES - k,
            {
                let hit = xml_feature_exec(k, es[i].data.as_slice());
                let old = xml_hits[k];
                proof {
                    if hit {
                        assert(xml_hit(ev, k as int, i + 1));
                    } else {
                        assert forall|j: int| 0 <= j < i + 1 && xmlish_name((#[trigger] ev[j]).name)
                            implies !xml_feature(k as int, ev[j].data) || (j < i && xml_feature(k as int, ev[j].data)) by {}
                    }
                }
                xml_hits.set(k, old || hit);
                k = k + 1;
            }
        } else {
            assert forall|m: int| 0 <= m < 12 implies #[trigger] xml_hits@[m] == xml_hit(ev, m, i + 1) by {
                if xml_hit(ev, m, i + 1) {
                    let j = choose|j: int| 0 <= j < i + 1 && xmlish_name((#[trigger] ev[j]).name) && xml_feature(m, ev[j].data);
                    assert(j < i);
                }
            }
        }
        i = i + 1;
    }
    let mut r: Vec<(&'static str, bool)> = Vec::new();
    if any_xml {
        let mut k: usize = 0;
        while k < XML_FEATURES
            invariant
                k <= XML_FEATURES,
                xml_hits@.len() == XML_FEATURES,
                r@.len() == k,
                forall|m: int| 0 <= m < 12 ==> #[trigger] xml_hits@[m] == xml_hit(ev, m, ev.len() as int),
                pair_views(r@) == Seq::new(k as nat, |m: int| (xml_feature_id(m), xml_hit(ev, m, ev.len() as int))),
            decreases XML_FEATURES - k,
        {
            let x = (xml_feature_id_exec(k), xml_hits[k]);
            proof { lemma_pair_views_push(r@, x); }
            r.push(x);
            k = k + 1;
            assert(pair_views(r@) =~= Seq::new(k as nat, |m: int| (xml_feature_id(m), xml_hit(ev, m, ev.len() as int))));
        }
    }
    let ghost after_xml = pair_views(r@);
    // Container constructs, over every entry.
    if es.len() > 0 {
        let mut k: usize = 0;
        while k < 4
            invariant
                ev == archive@.entries,
                es@ == archive.entries@,
                ev.len() == es@.len(),
                k <= 4,
                r@.len() == after_xml.len() + k,
                pair_views(r@) == after_xml + Seq::new(k as nat, |m: int| (entry_feature_id(m), entry_hit(ev, m, ev.len() as int))),
            decreases 4 - k,
        {
            let mut hit = false;
            let mut j: usize = 0;
            while j < es.len()
                invariant
                    ev == archive@.entries,
                    es@ == archive.entries@,
                    ev.len() == es@.len(),
                    k < 4,
                    j <= es@.len(),
                    hit == entry_hit(ev, k as int, j as int),
                decreases es@.len() - j,
            {
                assert(es@[j as int]@ == ev[j as int]);
                let h = entry_feature_exec(k, &es[j]);
                proof {
                    if !hit && !h {
                        assert forall|m: int| 0 <= m < j + 1 implies !entry_feature(k as int, #[trigger] ev[m]) by {}
                    }
                }
                hit = hit || h;
                j = j + 1;
            }
            let x = (entry_feature_id_exec(k), hit);
            proof { lemma_pair_views_push(r@, x); }
            r.push(x);
            k = k + 1;
            assert(pair_views(r@) =~= after_xml + Seq::new(k as nat, |m: int| (entry_feature_id(m), entry_hit(ev, m, ev.len() as int))));
        }
    }
    let ghost after_entries = pair_views(r@);
    r.push(("archive-comment", !archive.comment.as_str().is_empty()));
    let ghost after_comment = pair_views(r@);
    // Package constructs, over the first package document.
    let mut opf: Option<usize> = None;
    let mut j: usize = 0;
    while j < es.len()
        invariant
            ev == archive@.entries,
            es@ == archive.entries@,
            ev.len() == es@.len(),
            j <= es@.len(),
            opf is None ==> forall|m: int| 0 <= m < j ==> !ends_with_ci((#[trigger] ev[m]).name, ".opf"@),
            opf matches Some(o) ==> first_opf(ev, o as int),
        decreases es@.len() - j,
    {
        assert(es@[j as int]@ == ev[j as int]);
        if opf.is_none() && ends_with_ci_exec(&chars_of(es[j].name.as_str()), ".opf") {
            opf = Some(j);
        }
        j = j + 1;
    }
    proof {
        reveal_strlit("version=\"2.");
        reveal_strlit("<guide");
        reveal_strlit(":guide");
    }
    match opf {
        Some(o) => {
            proof {
                assert(has_opf(ev));
                let c = choose|c: int| first_opf(ev, c);
                if c < o { assert(!ends_with_ci(ev[c].name, ".opf"@)); }
                if o < c { assert(!ends_with_ci(ev[o as int].name, ".opf"@)); }
                assert(es@[o as int]@ == ev[o as int]);
            }
            let d = es[o].data.as_slice();
            let v2 = contains_bytes(d, lit_bytes("version=\"2.").as_slice());
            let guide = contains_bytes(d, lit_bytes("<guide").as_slice()) || contains_bytes(
                d,
                lit_bytes(":guide").as_slice(),
            );
            r.push(("epub2-package", v2));
            r.push(("opf-guide-element", guide));
        },
        None => {
            assert(!has_opf(ev));
        },
    }
    let ghost after_opf = pair_views(r@);
    let mut ncx = false;
    let mut j: usize = 0;
    while j < es.len()
        invariant
            ev == archive@.entries,
            es@ == archive.entries@,
            ev.len() == es@.len(),
            j <= es@.len(),
            ncx == exists|m: int| 0 <= m < j && ends_with_ci((#[trigger] ev[m]).name, ".ncx"@),
        decreases es@.len() - j,
    {
        assert(es@[j as int]@ == ev[j as int]);
        let h = ends_with_ci_exec(&chars_of(es[j].name.as_str()), ".ncx");
        proof {
            if !ncx && !h {
                assert forall|m: int| 0 <= m < j + 1 implies !ends_with_ci((#[trigger] ev[m]).name, ".ncx"@) by {}
            }
        }
        ncx = ncx || h;
        j = j + 1;
    }
    r.push(("ncx-present", ncx));
    let enc = archive.get("META-INF/encryption.xml");
    r.push(("encryption-xml", enc.is_some()));
    proof {
        assert(pair_views(r@) =~= detection_list(archive@));
    }
    r
}

/// How many ids the detectors report on.
pub const DETECTED_IDS: usize = 21;

/// The ids the detectors report on, in alphabetical order.
pub open spec fn id_in_order(k: int) -> Seq<char> {
    if k == 0 { "archive-comment"@ }
    else if k == 1 { "byte-order-mark"@ }
    else if k == 2 { "cdata-section"@ }
    else if k == 3 { "crlf-line-endings"@ }
    else if k == 4 { "doctype-declaration"@ }
    else if k == 5 { "encryption-xml"@ }
    else if k == 6 { "epub2-package"@ }
    else if k == 7 { "internal-entity"@ }
    else if k == 8 { "ncx-present"@ }
    else if k == 9 { "non-alphabetical-attribute-order"@ }
    else if k == 10 { "non-ascii-entry-name"@ }
    else if k == 11 { "opf-guide-element"@ }
    else if k == 12 { "processing-instruction"@ }
    else if k == 13 { "remote-resource"@ }
    else if k == 14 { "scripted-content"@ }
    else if k == 15 { "stored-entry-beyond-mimetype"@ }
    else if k == 16 { "uncommon-namespace-prefix"@ }
    else if k == 17 { "xml-comment"@ }
    else if k == 18 { "xml-standalone-declaration"@ }
    else if k == 19 { "zip-entry-comment"@ }
    else { "zip-extra-field"@ }
}

fn id_in_order_exec(k: usize) -> (s: &'static str)
    requires
        k < DETECTED_IDS,
    ensures
        s@ == id_in_order(k as int),
{
    if k == 0 { "archive-comment" }
    else if k == 1 { "byte-order-mark" }
    else if k == 2 { "cdata-section" }
    else if k == 3 { "crlf-line-endings" }
    else if k == 4 { "doctype-declaration" }
    else if k == 5 { "encryption-xml" }
    else if k == 6 { "epub2-package" }
    else if k == 7 { "internal-entity" }
    else if k == 8 { "ncx-present" }
    else if k == 9 { "non-alphabetical-attribute-order" }
    else if k == 10 { "non-ascii-entry-name" }
    else if k == 11 { "opf-guide-element" }
    else if k == 12 { "processing-instruction" }
    else if k == 13 { "remote-resource" }
    else if k == 14 { "scripted-content" }
    else if k == 15 { "stored-entry-beyond-mimetype" }
    else if k == 16 { "uncommon-namespace-prefix" }
    else if k == 17 { "xml-comment" }
    else if k == 18 { "xml-standalone-declaration" }
    else if k == 19 { "zip-entry-comment" }
    else { "zip-extra-field" }
}

/// The first `n` ids in alphabetical order that `list` reports on, each
/// with the first verdict reported for it.
pub open spec fn by_id(list: Seq<(Seq<char>, bool)>, n: int) -> Seq<(Seq<char>, bool)>
    decreases n,
{
    if n <= 0 {
        Seq::empty()
    } else {
        by_id(list, n - 1) + match detection_of(list, id_in_order(n - 1)) {
            Some(b) => seq![(id_in_order(n - 1), b)],
            None => Seq::empty(),
        }
    }
}

/// A book's detections keyed by catalogue id, in id order.
pub open spec fn detections(a: ArchiveView) -> Seq<(Seq<char>, bool)> {
    by_id(detection_list(a), DETECTED_IDS as int)
}

/// The first verdict `list` reports for `id`, if any.
fn first_verdict(list: &Vec<(&'static str, bool)>, id: &str) -> (r: Option<bool>)
    ensures
        r == detection_of(pair_views(list@), id@),
{
    let ghost pv = pair_views(list@);
    let mut i: usize = 0;
    while i < list.len()
        invariant
            pv == pair_views(list@),
            i <= list@.len(),
            forall|j: int| 0 <= j < i ==> (#[trigger] pv[j]).0 != id@,
        decreases list@.len() - i,
    {
        assert(pv[i as int] == (list@[i as int].0@, list@[i as int].1));
        if str_eq(list[i].0, id) {
            proof {
                lemma_first_detection(pv, id@, i as int);
            }
            return Some(list[i].1);
        }
        i = i + 1;
    }
    None
}

/// Features this harness can detect in one book, keyed by catalogue id and
/// listed in id order. Anything in the catalogue but not here resolves to
/// `NotCovered`.
pub fn detect(archive: &Archive) -> (r: Vec<(&'static str, bool)>)
    ensures
        pair_views(r@) == detections(archive@),
{
    let all = detect_by_group(archive);
    let ghost list = detection_list(archive@);
    let mut r: Vec<(&'static str, bool)> = Vec::new();
    let mut k: usize = 0;
    assert(pair_views(r@) =~= Seq::<(Seq<char>, bool)>::empty());
    while k < DETECTED_IDS
        invariant
            pair_views(all@) == list,
            list == detection_list(archive@),
            k <= DETECTED_IDS,
            pair_views(r@) == by_id(list, k as int),
        decreases DETECTED_IDS - k,
    {
        let id = id_in_order_exec(k);
        match first_verdict(&all, id) {
            Some(b) => {
                proof {
                    lemma_pair_views_push(r@, (id, b));
                }
                r.push((id, b));
            },
            None => {
                assert(by_id(list, k + 1) =~= by_id(list, k as int));
            },
        }
        k = k + 1;
    }
    r
}

/// Each id comes strictly before the next in alphabetical order.
proof fn lemma_ids_ascend(k: int)
    requires
        0 <= k < DETECTED_IDS - 1,
    ensures
        chars_le(id_in_order(k), id_in_order(k + 1)),
        id_in_order(k) != id_in_order(k + 1),
{
    reveal_strlit("archive-comment");
    reveal_strlit("byte-order-mark");
    reveal_strlit("cdata-section");
    reveal_strlit("crlf-line-endings");
    reveal_strlit("doctype-declaration");
    reveal_strlit("encryption-xml");
    reveal_strlit("epub2-package");
    reveal_strlit("internal-entity");
    reveal_strlit("ncx-present");
    reveal_strlit("non-alphabetical-attribute-order");
    reveal_strlit("non-ascii-entry-name");
    reveal_strlit("opf-guide-element");
    reveal_strlit("processing-instruction");
    reveal_strlit("remote-resource");
    reveal_strlit("scripted-content");
    reveal_strlit("stored-entry-beyond-mimetype");
    reveal_strlit("uncommon-namespace-prefix");
    reveal_strlit("xml-comment");
    reveal_strlit("xml-standalone-declaration");
    reveal_strlit("zip-entry-comment");
    reveal_strlit("zip-extra-field");
    reveal_with_fuel(chars_le, 8);
    assert(id_in_order(k)[0] != id_in_order(k + 1)[0] || id_in_order(k)[1] != id_in_order(k + 1)[1]
        || id_in_order(k)[4] != id_in_order(k + 1)[4] || id_in_order(k)[5] != id_in_order(k + 1)[5]);
}

/// The ids in alphabetical order ascend strictly.
proof fn lemma_ids_ascending(i: int, j: int)
    requires
        0 <= i < j < DETECTED_IDS,
    ensures
        chars_le(id_in_order(i), id_in_order(j)),
        id_in_order(i) != id_in_order(j),
    decreases j - i,
{
    lemma_ids_ascend(j - 1);
    if i < j - 1 {
        lemma_ids_ascending(i, j - 1);
        lemma_chars_le_transitive(id_in_order(i), id_in_order(j - 1), id_in_order(j));
        if id_in_order(i) == id_in_order(j) {
            lemma_chars_le_antisymmetric(id_in_order(j - 1), id_in_order(j));
        }
    }
}

/// The ids the first `n` steps of `by_id` take, each from the alphabetical
/// list at a position below `n`, and ascending.
proof fn lemma_by_id_positions(list: Seq<(Seq<char>, bool)>, n: int)
    requires
        0 <= n <= DETECTED_IDS,
    ensures
        forall|m: int| 0 <= m < by_id(list, n).len() ==> exists|p: int| 0 <= p < n && (#[trigger] by_id(list, n)[m]).0 == id_in_order(p),
        forall|a: int, b: int| 0 <= a < b < by_id(list, n).len() ==> exists|p: int, q: int| 0 <= p < q < n
            && (#[trigger] by_id(list, n)[a]).0 == id_in_order(p) && (#[trigger] by_id(list, n)[b]).0 == id_in_order(q),
    decreases n,
{
    if n > 0 {
        lemma_by_id_positions(list, n - 1);
        let prev = by_id(list, n - 1);
        let cur = by_id(list, n);
        assert forall|m: int| 0 <= m < cur.len() implies exists|p: int| 0 <= p < n && (#[trigger] cur[m]).0 == id_in_order(p) by {
            if m < prev.len() {
                assert(cur[m] == prev[m]);
                let p = choose|p: int| 0 <= p < n - 1 && prev[m].0 == id_in_order(p);
                assert(cur[m].0 == id_in_order(p));
            } else {
                assert(cur[m].0 == id_in_order(n - 1));
            }
        }
        assert forall|a: int, b: int| 0 <= a < b < cur.len() implies exists|p: int, q: int| 0 <= p < q < n
            && (#[trigger] cur[a]).0 == id_in_order(p) && (#[trigger] cur[b]).0 == id_in_order(q) by {
            if b < prev.len() {
                assert(cur[a] == prev[a] && cur[b] == prev[b]);
                let (p, q) = choose|p: int, q: int| 0 <= p < q < n - 1 && prev[a].0 == id_in_order(p) && prev[b].0 == id_in_order(q);
                assert(cur[a].0 == id_in_order(p) && cur[b].0 == id_in_order(q));
            } else {
                assert(cur[a] == prev[a]);
                assert(exists|p: int| 0 <= p < n - 1 && (#[trigger] prev[a]).0 == id_in_order(p));
                let p = choose|p: int| 0 <= p < n - 1 && prev[a].0 == id_in_order(p);
                assert(cur[b].0 == id_in_order(n - 1));
                assert(cur[a].0 == id_in_order(p) && cur[b].0 == id_in_order(n - 1));
            }
        }
    }
}

/// A book's detections are keyed by id, in strictly ascending id order, as a
/// map ordered by its keys gives them: each id once.
pub proof fn law_detections_are_in_id_order(a: ArchiveView)
    ensures
        forall|i: int, j: int| 0 <= i < j < detections(a).len() ==> chars_le(
            (#[trigger] detections(a)[i]).0,
            (#[trigger] detections(a)[j]).0,
        ) && detections(a)[i].0 != detections(a)[j].0,
{
    let d = detections(a);
    lemma_by_id_positions(detection_list(a), DETECTED_IDS as int);
    assert forall|i: int, j: int| 0 <= i < j < d.len() implies chars_le((#[trigger] d[i]).0, (#[trigger] d[j]).0)
        && d[i].0 != d[j].0 by {
        let (p, q) = choose|p: int, q: int| 0 <= p < q < DETECTED_IDS && d[i].0 == id_in_order(p) && d[j].0 == id_in_order(q);
        lemma_ids_ascending(p, q);
    }
}

/// A package-document name that occurs has a first occurrence.
pub proof fn lemma_some_first_opf(es: Seq<EntryView>, w: int)
    requires
        0 <= w < es.len(),
        ends_with_ci(es[w].name, ".opf"@),
    ensures
        exists|k: int| first_opf(es, k),
    decreases w,
{
    if exists|j: int| 0 <= j < w && ends_with_ci((#[trigger] es[j]).name, ".opf"@) {
        let j = choose|j: int| 0 <= j < w && ends_with_ci((#[trigger] es[j]).name, ".opf"@);
        lemma_some_first_opf(es, j);
    } else {
        assert(first_opf(es, w));
    }
}

/// Two detection lists that report the same ids in the same places, and
/// differ in verdict only for `id`.
pub open spec fn differ_only_at(l1: Seq<(Seq<char>, bool)>, l2: Seq<(Seq<char>, bool)>, id: Seq<char>) -> bool {
    &&& l1.len() == l2.len()
    &&& forall|m: int| 0 <= m < l1.len() ==> (#[trigger] l1[m]).0 == l2[m].0 && (l1[m].1 != l2[m].1 ==> l1[m].0 == id)
}

/// Such lists give the same verdict for every other id.
proof fn lemma_detection_of_alike(l1: Seq<(Seq<char>, bool)>, l2: Seq<(Seq<char>, bool)>, x: Seq<char>, y: Seq<char>)
    requires
        differ_only_at(l1, l2, x),
    ensures
        (detection_of(l1, y) is Some) == (detection_of(l2, y) is Some),
        y != x ==> detection_of(l1, y) == detection_of(l2, y),
{
    if exists|i: int| 0 <= i < l1.len() && (#[trigger] l1[i]).0 == y {
        let w = choose|i: int| 0 <= i < l1.len() && (#[trigger] l1[i]).0 == y;
        let f = lemma_first_position(l1, y, w);
        assert(l2[f].0 == y);
        assert forall|j: int| 0 <= j < f implies (#[trigger] l2[j]).0 != y by {
            assert(l1[j].0 != y);
        }
        lemma_first_detection(l1, y, f);
        lemma_first_detection(l2, y, f);
    } else {
        assert(!exists|i: int| 0 <= i < l2.len() && (#[trigger] l2[i]).0 == y) by {
            if exists|i: int| 0 <= i < l2.len() && (#[trigger] l2[i]).0 == y {
                let i = choose|i: int| 0 <= i < l2.len() && (#[trigger] l2[i]).0 == y;
                assert(l1[i].0 == y);
            }
        }
    }
}

/// An id reported somewhere is first reported somewhere.
proof fn lemma_first_position(l: Seq<(Seq<char>, bool)>, y: Seq<char>, w: int) -> (f: int)
    requires
        0 <= w < l.len(),
        l[w].0 == y,
    ensures
        0 <= f <= w,
        l[f].0 == y,
        forall|j: int| 0 <= j < f ==> (#[trigger] l[j]).0 != y,
    decreases w,
{
    if exists|j: int| 0 <= j < w && (#[trigger] l[j]).0 == y {
        let j = choose|j: int| 0 <= j < w && (#[trigger] l[j]).0 == y;
        lemma_first_position(l, y, j)
    } else {
        w
    }
}

/// Keying by id keeps lists that differ only at one id differing only there.
proof fn lemma_by_id_alike(l1: Seq<(Seq<char>, bool)>, l2: Seq<(Seq<char>, bool)>, x: Seq<char>, n: int)
    requires
        differ_only_at(l1, l2, x),
    ensures
        differ_only_at(by_id(l1, n), by_id(l2, n), x),
    decreases n,
{
    if n > 0 {
        lemma_by_id_alike(l1, l2, x, n - 1);
        lemma_detection_of_alike(l1, l2, x, id_in_order(n - 1));
        let p1 = by_id(l1, n - 1);
        let p2 = by_id(l2, n - 1);
        let c1 = by_id(l1, n);
        let c2 = by_id(l2, n);
        assert forall|m: int| 0 <= m < c1.len() implies (#[trigger] c1[m]).0 == c2[m].0 && (c1[m].1 != c2[m].1 ==> c1[m].0 == x) by {
            if m < p1.len() {
                assert(c1[m] == p1[m] && c2[m] == p2[m]);
            }
        }
    }
}

/// `b` is `a` with the bytes of entry `i` replaced, and nothing else changed.
pub open spec fn rewritten_entry(a: ArchiveView, b: ArchiveView, i: int) -> bool {
    &&& a.comment == b.comment
    &&& a.entries.len() == b.entries.len()
    &&& 0 <= i < a.entries.len()
    &&& forall|j: int| 0 <= j < a.entries.len() && j != i ==> #[trigger] a.entries[j] == b.entries[j]
    &&& b.entries[i].name == a.entries[i].name
    &&& b.entries[i].method == a.entries[i].method
    &&& b.entries[i].compressed_size == a.entries[i].compressed_size
    &&& b.entries[i].modified == a.entries[i].modified
    &&& b.entries[i].declared_crc == a.entries[i].declared_crc
    &&& b.entries[i].declared_size == a.entries[i].declared_size
    &&& b.entries[i].comment == a.entries[i].comment
    &&& b.entries[i].extra == a.entries[i].extra
}

/// A detector fires on its construct and no other detector moves: where a
/// content document, not the package document, is rewritten so that only
/// content construct `k` may come or go, the book's detections differ from
/// the old ones only in that construct's verdict, and where the new bytes
/// hold the construct, its detector reports it.
pub proof fn law_a_content_construct_moves_only_its_detector(a: ArchiveView, b: ArchiveView, i: int, k: int)
    requires
        rewritten_entry(a, b, i),
        xmlish_name(a.entries[i].name),
        !ends_with_ci(a.entries[i].name, ".opf"@),
        0 <= k < XML_FEATURES,
        forall|j: int| 0 <= j < XML_FEATURES && j != k ==> xml_feature(j, #[trigger] a.entries[i].data) == xml_feature(
            j,
            b.entries[i].data,
        ),
    ensures
        differ_only_at(detections(a), detections(b), xml_feature_id(k)),
        xml_feature(k, b.entries[i].data) ==> exists|m: int| 0 <= m < detections(b).len() && #[trigger] detections(b)[m]
            == (xml_feature_id(k), true),
{
    let ea = a.entries;
    let eb = b.entries;
    let n = ea.len() as int;
    assert forall|j: int| 0 <= j < n implies (#[trigger] ea[j]).name == eb[j].name by {
        if j != i {
            assert(ea[j] == eb[j]);
        }
    }
    assert(any_xmlish(ea) && any_xmlish(eb));
    assert forall|j: int| 0 <= j < XML_FEATURES && j != k implies xml_hit(ea, j, n) == xml_hit(eb, j, n) by {
        if xml_hit(ea, j, n) {
            let w = choose|w: int| 0 <= w < n && xmlish_name((#[trigger] ea[w]).name) && xml_feature(j, ea[w].data);
            if w != i {
                assert(ea[w] == eb[w]);
            }
            assert(xmlish_name(eb[w].name) && xml_feature(j, eb[w].data));
        }
        if xml_hit(eb, j, n) {
            let w = choose|w: int| 0 <= w < n && xmlish_name((#[trigger] eb[w]).name) && xml_feature(j, eb[w].data);
            if w != i {
                assert(ea[w] == eb[w]);
            }
            assert(xmlish_name(ea[w].name) && xml_feature(j, ea[w].data));
        }
    }
    assert forall|j: int| 0 <= j < 4 implies entry_hit(ea, j, n) == entry_hit(eb, j, n) by {
        if entry_hit(ea, j, n) {
            let w = choose|w: int| 0 <= w < n && entry_feature(j, #[trigger] ea[w]);
            if w != i {
                assert(ea[w] == eb[w]);
            }
            assert(entry_feature(j, eb[w]));
        }
        if entry_hit(eb, j, n) {
            let w = choose|w: int| 0 <= w < n && entry_feature(j, #[trigger] eb[w]);
            if w != i {
                assert(ea[w] == eb[w]);
            }
            assert(entry_feature(j, ea[w]));
        }
    }
    assert(has_opf(ea) == has_opf(eb)) by {
        if has_opf(ea) {
            let w = choose|w: int| 0 <= w < n && ends_with_ci((#[trigger] ea[w]).name, ".opf"@);
            assert(ends_with_ci(eb[w].name, ".opf"@));
        }
        if has_opf(eb) {
            let w = choose|w: int| 0 <= w < n && ends_with_ci((#[trigger] eb[w]).name, ".opf"@);
            assert(ends_with_ci(ea[w].name, ".opf"@));
        }
    }
    if has_opf(ea) {
        let f = choose|f: int| first_opf(ea, f);
        let g = choose|g: int| first_opf(eb, g);
        assert(first_opf(ea, f)) by {
            let w = choose|w: int| 0 <= w < n && ends_with_ci((#[trigger] ea[w]).name, ".opf"@);
            lemma_some_first_opf(ea, w);
        }
        assert(first_opf(eb, g)) by {
            let w = choose|w: int| 0 <= w < n && ends_with_ci((#[trigger] eb[w]).name, ".opf"@);
            lemma_some_first_opf(eb, w);
        }
        assert(f == g) by {
            if f < g {
                assert(!ends_with_ci(eb[f].name, ".opf"@));
            }
            if g < f {
                assert(!ends_with_ci(ea[g].name, ".opf"@));
            }
        }
        assert(f != i);
        assert(ea[f] == eb[f]);
        assert(opf_data(ea) == opf_data(eb));
    }
    assert((exists|j: int| 0 <= j < n && ends_with_ci((#[trigger] ea[j]).name, ".ncx"@)) == (exists|j: int|
        0 <= j < n && ends_with_ci((#[trigger] eb[j]).name, ".ncx"@))) by {
        if exists|j: int| 0 <= j < n && ends_with_ci((#[trigger] ea[j]).name, ".ncx"@) {
            let w = choose|j: int| 0 <= j < n && ends_with_ci((#[trigger] ea[j]).name, ".ncx"@);
            assert(ends_with_ci(eb[w].name, ".ncx"@));
        }
        if exists|j: int| 0 <= j < n && ends_with_ci((#[trigger] eb[j]).name, ".ncx"@) {
            let w = choose|j: int| 0 <= j < n && ends_with_ci((#[trigger] eb[j]).name, ".ncx"@);
            assert(ends_with_ci(ea[w].name, ".ncx"@));
        }
    }
    assert(has_name(ea, "META-INF/encryption.xml"@) == has_name(eb, "META-INF/encryption.xml"@)) by {
        if has_name(ea, "META-INF/encryption.xml"@) {
            let w = choose|w: int| 0 <= w < n && (#[trigger] ea[w]).name == "META-INF/encryption.xml"@;
            assert(eb[w].name == "META-INF/encryption.xml"@);
        }
        if has_name(eb, "META-INF/encryption.xml"@) {
            let w = choose|w: int| 0 <= w < n && (#[trigger] eb[w]).name == "META-INF/encryption.xml"@;
            assert(ea[w].name == "META-INF/encryption.xml"@);
        }
    }
    let la = detection_list(a);
    let lb = detection_list(b);
    assert(differ_only_at(la, lb, xml_feature_id(k))) by {
        assert forall|m: int| 0 <= m < la.len() implies (#[trigger] la[m]).0 == lb[m].0 && (la[m].1 != lb[m].1
            ==> la[m].0 == xml_feature_id(k)) by {
            if m < XML_FEATURES && la[m].1 != lb[m].1 {
                if m != k {
                    assert(xml_hit(ea, m, n) == xml_hit(eb, m, n));
                }
            }
        }
    }
    lemma_by_id_alike(la, lb, xml_feature_id(k), DETECTED_IDS as int);
    if xml_feature(k, eb[i].data) {
        assert(xmlish_name(eb[i].name) && xml_feature(k, eb[i].data));
        assert(xml_hit(eb, k, n));
        assert(lb[k] == (xml_feature_id(k), true));
        lemma_xml_ids_distinct(k);
        assert forall|j: int| 0 <= j < k implies (#[trigger] lb[j]).0 != xml_feature_id(k) by {
            assert(lb[j].0 == xml_feature_id(j));
        }
        lemma_first_detection(lb, xml_feature_id(k), k);
        let p = lemma_xml_id_in_order(k);
        lemma_by_id_holds(lb, DETECTED_IDS as int, p, true);
        let d = by_id(lb, DETECTED_IDS as int);
        let m = choose|m: int| 0 <= m < d.len() && #[trigger] d[m] == (id_in_order(p), true);
        assert(detections(b) == d);
        assert(detections(b)[m] == (xml_feature_id(k), true));
    }
}

/// The content constructs' ids are distinct.
proof fn lemma_xml_ids_distinct(k: int)
    requires
        0 <= k < XML_FEATURES,
    ensures
        forall|j: int| 0 <= j < k ==> xml_feature_id(j) != xml_feature_id(k),
{
    reveal_strlit("xml-comment");
    reveal_strlit("processing-instruction");
    reveal_strlit("cdata-section");
    reveal_strlit("doctype-declaration");
    reveal_strlit("internal-entity");
    reveal_strlit("byte-order-mark");
    reveal_strlit("crlf-line-endings");
    reveal_strlit("xml-standalone-declaration");
    reveal_strlit("uncommon-namespace-prefix");
    reveal_strlit("non-alphabetical-attribute-order");
    reveal_strlit("scripted-content");
    reveal_strlit("remote-resource");
    assert forall|j: int| 0 <= j < k implies xml_feature_id(j) != xml_feature_id(k) by {
        assert(xml_feature_id(j).len() != xml_feature_id(k).len() || xml_feature_id(j)[0] != xml_feature_id(k)[0]);
    }
}

/// Where a content construct's id stands in alphabetical order.
proof fn lemma_xml_id_in_order(k: int) -> (p: int)
    requires
        0 <= k < XML_FEATURES,
    ensures
        0 <= p < DETECTED_IDS,
        id_in_order(p) == xml_feature_id(k),
{
    if k == 0 { 17 }
    else if k == 1 { 12 }
    else if k == 2 { 2 }
    else if k == 3 { 4 }
    else if k == 4 { 7 }
    else if k == 5 { 1 }
    else if k == 6 { 3 }
    else if k == 7 { 18 }
    else if k == 8 { 16 }
    else if k == 9 { 9 }
    else if k == 10 { 14 }
    else { 13 }
}

/// Keying by id keeps every verdict of an id it keys on.
proof fn lemma_by_id_holds(l: Seq<(Seq<char>, bool)>, n: int, p: int, v: bool)
    requires
        0 <= p < n,
        detection_of(l, id_in_order(p)) == Some(v),
    ensures
        exists|m: int| 0 <= m < by_id(l, n).len() && #[trigger] by_id(l, n)[m] == (id_in_order(p), v),
    decreases n,
{
    let prev = by_id(l, n - 1);
    let cur = by_id(l, n);
    if p == n - 1 {
        assert(cur[prev.len() as int] == (id_in_order(p), v));
    } else {
        lemma_by_id_holds(l, n - 1, p, v);
        let m = choose|m: int| 0 <= m < prev.len() && #[trigger] prev[m] == (id_in_order(p), v);
        assert(cur[m] == prev[m]);
    }
}

/// `b` is `a` with the storage, comment or extra field of entry `i` changed:
/// its name and bytes, and every other entry, stay as they were.
pub open spec fn restored_entry(a: ArchiveView, b: ArchiveView, i: int) -> bool {
    &&& a.comment == b.comment
    &&& a.entries.len() == b.entries.len()
    &&& 0 <= i < a.entries.len()
    &&& forall|j: int| 0 <= j < a.entries.len() && j != i ==> #[trigger] a.entries[j] == b.entries[j]
    &&& b.entries[i].name == a.entries[i].name
    &&& b.entries[i].data == a.entries[i].data
}

/// The per-entry detectors' ids are distinct from each other and from the
/// content constructs' ids.
proof fn lemma_entry_ids_distinct(k: int)
    requires
        0 <= k < 4,
    ensures
        forall|j: int| 0 <= j < k ==> entry_feature_id(j) != entry_feature_id(k),
        forall|j: int| 0 <= j < XML_FEATURES ==> xml_feature_id(j) != entry_feature_id(k),
        forall|j: int| 0 <= j < XML_FEATURES ==> xml_feature_id(j) != "archive-comment"@,
        forall|j: int| 0 <= j < 4 ==> entry_feature_id(j) != "archive-comment"@,
{
    reveal_strlit("xml-comment");
    reveal_strlit("processing-instruction");
    reveal_strlit("cdata-section");
    reveal_strlit("doctype-declaration");
    reveal_strlit("internal-entity");
    reveal_strlit("byte-order-mark");
    reveal_strlit("crlf-line-endings");
    reveal_strlit("xml-standalone-declaration");
    reveal_strlit("uncommon-namespace-prefix");
    reveal_strlit("non-alphabetical-attribute-order");
    reveal_strlit("scripted-content");
    reveal_strlit("remote-resource");
    reveal_strlit("stored-entry-beyond-mimetype");
    reveal_strlit("zip-entry-comment");
    reveal_strlit("zip-extra-field");
    reveal_strlit("non-ascii-entry-name");
    reveal_strlit("archive-comment");
    assert forall|j: int| 0 <= j < k implies entry_feature_id(j) != entry_feature_id(k) by {
        assert(entry_feature_id(j).len() != entry_feature_id(k).len());
    }
    assert forall|j: int| 0 <= j < XML_FEATURES implies xml_feature_id(j) != entry_feature_id(k) by {
        assert(xml_feature_id(j).len() != entry_feature_id(k).len() || xml_feature_id(j)[0] != entry_feature_id(k)[0]);
    }
    assert forall|j: int| 0 <= j < XML_FEATURES implies xml_feature_id(j) != "archive-comment"@ by {
        assert(xml_feature_id(j).len() != "archive-comment"@.len() || xml_feature_id(j)[0] != "archive-comment"@[0]);
    }
    assert forall|j: int| 0 <= j < 4 implies entry_feature_id(j) != "archive-comment"@ by {
        assert(entry_feature_id(j).len() != "archive-comment"@.len() || entry_feature_id(j)[0] != "archive-comment"@[0]);
    }
}

/// Where a per-entry detector's id stands in alphabetical order.
proof fn lemma_entry_id_in_order(k: int) -> (p: int)
    requires
        0 <= k < 4,
    ensures
        0 <= p < DETECTED_IDS,
        id_in_order(p) == entry_feature_id(k),
{
    if k == 0 { 15 } else if k == 1 { 19 } else if k == 2 { 20 } else { 10 }
}

/// What a book's detections read besides entry storage, comments and extra
/// fields: names, bytes and the archive comment. Equal where those are.
proof fn lemma_same_names_and_bytes(a: ArchiveView, b: ArchiveView)
    requires
        a.comment == b.comment,
        a.entries.len() == b.entries.len(),
        forall|j: int| 0 <= j < a.entries.len() ==> (#[trigger] a.entries[j]).name == b.entries[j].name
            && a.entries[j].data == b.entries[j].data,
    ensures
        any_xmlish(a.entries) == any_xmlish(b.entries),
        forall|k: int| 0 <= k < XML_FEATURES ==> #[trigger] xml_hit(a.entries, k, a.entries.len() as int) == xml_hit(
            b.entries,
            k,
            b.entries.len() as int,
        ),
        has_opf(a.entries) == has_opf(b.entries),
        has_opf(a.entries) ==> opf_data(a.entries) == opf_data(b.entries),
        (exists|j: int| 0 <= j < a.entries.len() && ends_with_ci((#[trigger] a.entries[j]).name, ".ncx"@)) == (exists|j: int|
            0 <= j < b.entries.len() && ends_with_ci((#[trigger] b.entries[j]).name, ".ncx"@)),
        has_name(a.entries, "META-INF/encryption.xml"@) == has_name(b.entries, "META-INF/encryption.xml"@),
{
    let ea = a.entries;
    let eb = b.entries;
    let n = ea.len() as int;
    if any_xmlish(ea) {
        let w = choose|w: int| 0 <= w < n && xmlish_name((#[trigger] ea[w]).name);
        assert(xmlish_name(eb[w].name));
    }
    if any_xmlish(eb) {
        let w = choose|w: int| 0 <= w < n && xmlish_name((#[trigger] eb[w]).name);
        assert(xmlish_name(ea[w].name));
    }
    assert forall|k: int| 0 <= k < XML_FEATURES implies #[trigger] xml_hit(ea, k, n) == xml_hit(eb, k, n) by {
        if xml_hit(ea, k, n) {
            let w = choose|w: int| 0 <= w < n && xmlish_name((#[trigger] ea[w]).name) && xml_feature(k, ea[w].data);
            assert(xmlish_name(eb[w].name) && xml_feature(k, eb[w].data));
        }
        if xml_hit(eb, k, n) {
            let w = choose|w: int| 0 <= w < n && xmlish_name((#[trigger] eb[w]).name) && xml_feature(k, eb[w].data);
            assert(xmlish_name(ea[w].name) && xml_feature(k, ea[w].data));
        }
    }
    if has_opf(ea) {
        let w = choose|w: int| 0 <= w < n && ends_with_ci((#[trigger] ea[w]).name, ".opf"@);
        assert(ends_with_ci(eb[w].name, ".opf"@));
        lemma_some_first_opf(ea, w);
        lemma_some_first_opf(eb, w);
        let f = choose|f: int| first_opf(ea, f);
        let g = choose|g: int| first_opf(eb, g);
        if f < g {
            assert(!ends_with_ci(eb[f].name, ".opf"@));
        }
        if g < f {
            assert(!ends_with_ci(ea[g].name, ".opf"@));
        }
    }
    if has_opf(eb) {
        let w = choose|w: int| 0 <= w < n && ends_with_ci((#[trigger] eb[w]).name, ".opf"@);
        assert(ends_with_ci(ea[w].name, ".opf"@));
    }
    if exists|j: int| 0 <= j < n && ends_with_ci((#[trigger] ea[j]).name, ".ncx"@) {
        let w = choose|j: int| 0 <= j < n && ends_with_ci((#[trigger] ea[j]).name, ".ncx"@);
        assert(ends_with_ci(eb[w].name, ".ncx"@));
    }
    if exists|j: int| 0 <= j < n && ends_with_ci((#[trigger] eb[j]).name, ".ncx"@) {
        let w = choose|j: int| 0 <= j < n && ends_with_ci((#[trigger] eb[j]).name, ".ncx"@);
        assert(ends_with_ci(ea[w].name, ".ncx"@));
    }
    if has_name(ea, "META-INF/encryption.xml"@) {
        let w = choose|w: int| 0 <= w < n && (#[trigger] ea[w]).name == "META-INF/encryption.xml"@;
        assert(eb[w].name == "META-INF/encryption.xml"@);
    }
    if has_name(eb, "META-INF/encryption.xml"@) {
        let w = choose|w: int| 0 <= w < n && (#[trigger] eb[w]).name == "META-INF/encryption.xml"@;
        assert(ea[w].name == "META-INF/encryption.xml"@);
    }
}

/// A detector fires on its construct and no other detector moves: where one
/// entry's storage, comment or extra field is changed so that only
/// per-entry construct `k` may come or go, the book's detections differ
/// only in that construct's verdict, and where the changed entry shows the
/// construct, its detector reports it.
pub proof fn law_an_entry_construct_moves_only_its_detector(a: ArchiveView, b: ArchiveView, i: int, k: int)
    requires
        restored_entry(a, b, i),
        0 <= k < 4,
        forall|j: int| 0 <= j < 4 && j != k ==> entry_feature(j, a.entries[i]) == #[trigger] entry_feature(j, b.entries[i]),
    ensures
        differ_only_at(detections(a), detections(b), entry_feature_id(k)),
        entry_feature(k, b.entries[i]) ==> exists|m: int| 0 <= m < detections(b).len() && #[trigger] detections(b)[m]
            == (entry_feature_id(k), true),
{
    let ea = a.entries;
    let eb = b.entries;
    let n = ea.len() as int;
    assert forall|j: int| 0 <= j < n implies (#[trigger] ea[j]).name == eb[j].name && ea[j].data == eb[j].data by {
        if j != i {
            assert(ea[j] == eb[j]);
        }
    }
    lemma_same_names_and_bytes(a, b);
    assert forall|j: int| 0 <= j < 4 && j != k implies entry_hit(ea, j, n) == entry_hit(eb, j, n) by {
        if entry_hit(ea, j, n) {
            let w = choose|w: int| 0 <= w < n && entry_feature(j, #[trigger] ea[w]);
            if w != i {
                assert(ea[w] == eb[w]);
            }
            assert(entry_feature(j, eb[w]));
        }
        if entry_hit(eb, j, n) {
            let w = choose|w: int| 0 <= w < n && entry_feature(j, #[trigger] eb[w]);
            if w != i {
                assert(ea[w] == eb[w]);
            }
            assert(entry_feature(j, ea[w]));
        }
    }
    let la = detection_list(a);
    let lb = detection_list(b);
    let xl: int = if any_xmlish(ea) { XML_FEATURES as int } else { 0 };
    assert(differ_only_at(la, lb, entry_feature_id(k))) by {
        assert forall|m: int| 0 <= m < la.len() implies (#[trigger] la[m]).0 == lb[m].0 && (la[m].1 != lb[m].1
            ==> la[m].0 == entry_feature_id(k)) by {
            if m < xl {
                assert(xml_hit(ea, m, n) == xml_hit(eb, m, n));
            } else if m < xl + 4 && m - xl != k {
                assert(entry_hit(ea, m - xl, n) == entry_hit(eb, m - xl, n));
            }
        }
    }
    lemma_by_id_alike(la, lb, entry_feature_id(k), DETECTED_IDS as int);
    if entry_feature(k, eb[i]) {
        assert(entry_hit(eb, k, n));
        assert(lb[xl + k] == (entry_feature_id(k), true));
        lemma_entry_ids_distinct(k);
        assert forall|j: int| 0 <= j < xl + k implies (#[trigger] lb[j]).0 != entry_feature_id(k) by {
            if j < xl {
                assert(lb[j].0 == xml_feature_id(j));
            } else {
                assert(lb[j].0 == entry_feature_id(j - xl));
            }
        }
        lemma_first_detection(lb, entry_feature_id(k), xl + k);
        let p = lemma_entry_id_in_order(k);
        lemma_by_id_holds(lb, DETECTED_IDS as int, p, true);
        let d = by_id(lb, DETECTED_IDS as int);
        let m = choose|m: int| 0 <= m < d.len() && #[trigger] d[m] == (id_in_order(p), true);
        assert(detections(b)[m] == (entry_feature_id(k), true));
    }
}

/// A detector fires on its construct and no other detector moves: changing
/// only the archive comment changes the book's detections only in the
/// archive-comment verdict, and a non-empty comment is reported.
pub proof fn law_the_archive_comment_moves_only_its_detector(a: ArchiveView, b: ArchiveView)
    requires
        a.entries == b.entries,
    ensures
        differ_only_at(detections(a), detections(b), "archive-comment"@),
        b.comment.len() > 0 ==> exists|m: int| 0 <= m < detections(b).len() && #[trigger] detections(b)[m]
            == ("archive-comment"@, true),
{
    let la = detection_list(a);
    let lb = detection_list(b);
    let es = a.entries;
    let n = es.len() as int;
    let xl: int = if any_xmlish(es) { XML_FEATURES as int } else { 0 };
    let el: int = if n > 0 { 4 } else { 0 };
    assert(differ_only_at(la, lb, "archive-comment"@)) by {
        assert forall|m: int| 0 <= m < la.len() implies (#[trigger] la[m]).0 == lb[m].0 && (la[m].1 != lb[m].1
            ==> la[m].0 == "archive-comment"@) by {
        }
    }
    lemma_by_id_alike(la, lb, "archive-comment"@, DETECTED_IDS as int);
    if b.comment.len() > 0 {
        let q = xl + el;
        assert(lb[q] == ("archive-comment"@, true));
        lemma_entry_ids_distinct(0);
        assert forall|j: int| 0 <= j < q implies (#[trigger] lb[j]).0 != "archive-comment"@ by {
            if j < xl {
                assert(lb[j].0 == xml_feature_id(j));
            } else {
                assert(lb[j].0 == entry_feature_id(j - xl));
            }
        }
        lemma_first_detection(lb, "archive-comment"@, q);
        lemma_by_id_holds(lb, DETECTED_IDS as int, 0, true);
        let d = by_id(lb, DETECTED_IDS as int);
        let m = choose|m: int| 0 <= m < d.len() && #[trigger] d[m] == (id_in_order(0), true);
        assert(detections(b)[m] == ("archive-comment"@, true));
    }
}

/// The package-document constructs, in report order.
pub open spec fn opf_feature(k: int, d: Seq<u8>) -> bool {
    if k == 0 {
        contains_seq(d, ascii_bytes("version=\"2."@))
    } else {
        contains_seq(d, ascii_bytes("<guide"@)) || contains_seq(d, ascii_bytes(":guide"@))
    }
}

/// Catalogue ids of the package-document detectors, in report order.
pub open spec fn opf_feature_id(k: int) -> Seq<char> {
    if k == 0 { "epub2-package"@ } else { "opf-guide-element"@ }
}

/// The first position of a package-document name is the one read.
proof fn lemma_opf_data_at(es: Seq<EntryView>, f: int)
    requires
        first_opf(es, f),
    ensures
        has_opf(es),
        opf_data(es) == es[f].data,
{
    assert(has_opf(es));
    let g = choose|g: int| first_opf(es, g);
    assert(first_opf(es, g));
    if g < f {
        assert(!ends_with_ci(es[g].name, ".opf"@));
    }
    if f < g {
        assert(!ends_with_ci(es[f].name, ".opf"@));
    }
}

/// A detector fires on its construct and no other detector moves: where the
/// package document is rewritten so that only package construct `k` may
/// come or go, and no content construct with it, the book's detections
/// differ only in that construct's verdict, and where the new package
/// document holds the construct, its detector reports it.
pub proof fn law_a_package_construct_moves_only_its_detector(a: ArchiveView, b: ArchiveView, i: int, k: int)
    requires
        rewritten_entry(a, b, i),
        first_opf(a.entries, i),
        0 <= k < 2,
        forall|j: int| 0 <= j < XML_FEATURES ==> xml_feature(j, a.entries[i].data) == #[trigger] xml_feature(
            j,
            b.entries[i].data,
        ),
        forall|j: int| 0 <= j < 2 && j != k ==> opf_feature(j, a.entries[i].data) == #[trigger] opf_feature(
            j,
            b.entries[i].data,
        ),
    ensures
        differ_only_at(detections(a), detections(b), opf_feature_id(k)),
        opf_feature(k, b.entries[i].data) ==> exists|m: int| 0 <= m < detections(b).len() && #[trigger] detections(b)[m]
            == (opf_feature_id(k), true),
{
    let ea = a.entries;
    let eb = b.entries;
    let n = ea.len() as int;
    assert forall|j: int| 0 <= j < n implies (#[trigger] ea[j]).name == eb[j].name by {
        if j != i {
            assert(ea[j] == eb[j]);
        }
    }
    assert(xmlish_name(ea[i].name));
    assert(any_xmlish(ea) && any_xmlish(eb));
    assert forall|j: int| 0 <= j < XML_FEATURES implies xml_hit(ea, j, n) == xml_hit(eb, j, n) by {
        if xml_hit(ea, j, n) {
            let w = choose|w: int| 0 <= w < n && xmlish_name((#[trigger] ea[w]).name) && xml_feature(j, ea[w].data);
            if w != i {
                assert(ea[w] == eb[w]);
            }
            assert(xmlish_name(eb[w].name) && xml_feature(j, eb[w].data));
        }
        if xml_hit(eb, j, n) {
            let w = choose|w: int| 0 <= w < n && xmlish_name((#[trigger] eb[w]).name) && xml_feature(j, eb[w].data);
            if w != i {
                assert(ea[w] == eb[w]);
            }
            assert(xmlish_name(ea[w].name) && xml_feature(j, ea[w].data));
        }
    }
    assert forall|j: int| 0 <= j < 4 implies entry_hit(ea, j, n) == entry_hit(eb, j, n) by {
        if entry_hit(ea, j, n) {
            let w = choose|w: int| 0 <= w < n && entry_feature(j, #[trigger] ea[w]);
            if w != i {
                assert(ea[w] == eb[w]);
            }
            assert(entry_feature(j, eb[w]));
        }
        if entry_hit(eb, j, n) {
            let w = choose|w: int| 0 <= w < n && entry_feature(j, #[trigger] eb[w]);
            if w != i {
                assert(ea[w] == eb[w]);
            }
            assert(entry_feature(j, ea[w]));
        }
    }
    assert(first_opf(eb, i)) by {
        assert forall|j: int| 0 <= j < i implies !ends_with_ci((#[trigger] eb[j]).name, ".opf"@) by {
            assert(!ends_with_ci(ea[j].name, ".opf"@));
        }
    }
    lemma_opf_data_at(ea, i);
    lemma_opf_data_at(eb, i);
    assert((exists|j: int| 0 <= j < n && ends_with_ci((#[trigger] ea[j]).name, ".ncx"@)) == (exists|j: int|
        0 <= j < n && ends_with_ci((#[trigger] eb[j]).name, ".ncx"@))) by {
        if exists|j: int| 0 <= j < n && ends_with_ci((#[trigger] ea[j]).name, ".ncx"@) {
            let w = choose|j: int| 0 <= j < n && ends_with_ci((#[trigger] ea[j]).name, ".ncx"@);
            assert(ends_with_ci(eb[w].name, ".ncx"@));
        }
        if exists|j: int| 0 <= j < n && ends_with_ci((#[trigger] eb[j]).name, ".ncx"@) {
            let w = choose|j: int| 0 <= j < n && ends_with_ci((#[trigger] eb[j]).name, ".ncx"@);
            assert(ends_with_ci(ea[w].name, ".ncx"@));
        }
    }
    assert(has_name(ea, "META-INF/encryption.xml"@) == has_name(eb, "META-INF/encryption.xml"@)) by {
        if has_name(ea, "META-INF/encryption.xml"@) {
            let w = choose|w: int| 0 <= w < n && (#[trigger] ea[w]).name == "META-INF/encryption.xml"@;
            assert(eb[w].name == "META-INF/encryption.xml"@);
        }
        if has_name(eb, "META-INF/encryption.xml"@) {
            let w = choose|w: int| 0 <= w < n && (#[trigger] eb[w]).name == "META-INF/encryption.xml"@;
            assert(ea[w].name == "META-INF/encryption.xml"@);
        }
    }
    let la = detection_list(a);
    let lb = detection_list(b);
    let q = XML_FEATURES as int + 5;
    assert(differ_only_at(la, lb, opf_feature_id(k))) by {
        assert forall|m: int| 0 <= m < la.len() implies (#[trigger] la[m]).0 == lb[m].0 && (la[m].1 != lb[m].1
            ==> la[m].0 == opf_feature_id(k)) by {
            if m < XML_FEATURES {
                assert(xml_hit(ea, m, n) == xml_hit(eb, m, n));
            } else if m < XML_FEATURES + 4 {
                assert(entry_hit(ea, m - XML_FEATURES, n) == entry_hit(eb, m - XML_FEATURES, n));
            } else if m == q || m == q + 1 {
                if m - q != k {
                    assert(opf_feature(m - q, ea[i].data) == opf_feature(m - q, eb[i].data));
                }
            }
        }
    }
    lemma_by_id_alike(la, lb, opf_feature_id(k), DETECTED_IDS as int);
    if opf_feature(k, eb[i].data) {
        assert(lb[q + k] == (opf_feature_id(k), true));
        reveal_strlit("epub2-package");
        reveal_strlit("opf-guide-element");
        lemma_entry_ids_distinct(0);
        lemma_opf_ids_distinct();
        assert forall|j: int| 0 <= j < q + k implies (#[trigger] lb[j]).0 != opf_feature_id(k) by {
            if j < XML_FEATURES {
                assert(lb[j].0 == xml_feature_id(j));
            } else if j < XML_FEATURES + 4 {
                assert(lb[j].0 == entry_feature_id(j - XML_FEATURES));
            } else if j == XML_FEATURES + 4 {
                assert(lb[j].0 == "archive-comment"@);
            }
        }
        lemma_first_detection(lb, opf_feature_id(k), q + k);
        let p: int = if k == 0 { 6 } else { 11 };
        lemma_by_id_holds(lb, DETECTED_IDS as int, p, true);
        let d = by_id(lb, DETECTED_IDS as int);
        let m = choose|m: int| 0 <= m < d.len() && #[trigger] d[m] == (id_in_order(p), true);
        assert(detections(b)[m] == (opf_feature_id(k), true));
    }
}

/// The package-document detectors' ids differ from every id before them.
proof fn lemma_opf_ids_distinct()
    ensures
        forall|j: int| 0 <= j < XML_FEATURES ==> xml_feature_id(j) != "epub2-package"@ && xml_feature_id(j)
            != "opf-guide-element"@,
        forall|j: int| 0 <= j < 4 ==> entry_feature_id(j) != "epub2-package"@ && entry_feature_id(j)
            != "opf-guide-element"@,
        "archive-comment"@ != "epub2-package"@,
        "archive-comment"@ != "opf-guide-element"@,
        "epub2-package"@ != "opf-guide-element"@,
{
    reveal_strlit("xml-comment");
    reveal_strlit("processing-instruction");
    reveal_strlit("cdata-section");
    reveal_strlit("doctype-declaration");
    reveal_strlit("internal-entity");
    reveal_strlit("byte-order-mark");
    reveal_strlit("crlf-line-endings");
    reveal_strlit("xml-standalone-declaration");
    reveal_strlit("uncommon-namespace-prefix");
    reveal_strlit("non-alphabetical-attribute-order");
    reveal_strlit("scripted-content");
    reveal_strlit("remote-resource");
    reveal_strlit("stored-entry-beyond-mimetype");
    reveal_strlit("zip-entry-comment");
    reveal_strlit("zip-extra-field");
    reveal_strlit("non-ascii-entry-name");
    reveal_strlit("archive-comment");
    reveal_strlit("epub2-package");
    reveal_strlit("opf-guide-element");
    assert forall|j: int| 0 <= j < XML_FEATURES implies xml_feature_id(j) != "epub2-package"@ && xml_feature_id(j)
        != "opf-guide-element"@ by {
        assert(xml_feature_id(j).len() != 13 || xml_feature_id(j)[0] != 'e');
        assert(xml_feature_id(j).len() != 17 || xml_feature_id(j)[0] != 'o');
    }
    assert forall|j: int| 0 <= j < 4 implies entry_feature_id(j) != "epub2-package"@ && entry_feature_id(j)
        != "opf-guide-element"@ by {
        assert(entry_feature_id(j).len() != 13 || entry_feature_id(j)[0] != 'e');
        assert(entry_feature_id(j).len() != 17 || entry_feature_id(j)[0] != 'o');
    }
    assert("archive-comment"@[0] != "epub2-package"@[0]);
    assert("archive-comment"@[0] != "opf-guide-element"@[0]);
    assert("epub2-package"@[0] != "opf-guide-element"@[0]);
}

/// Some entry among `es` is named like a navigation control file.
pub open spec fn has_ncx(es: Seq<EntryView>) -> bool {
    exists|j: int| 0 <= j < es.len() && ends_with_ci((#[trigger] es[j]).name, ".ncx"@)
}

/// The remaining detectors' ids differ from every id before them.
proof fn lemma_tail_ids_distinct()
    ensures
        forall|j: int| 0 <= j < XML_FEATURES ==> xml_feature_id(j) != "ncx-present"@ && xml_feature_id(j)
            != "encryption-xml"@,
        forall|j: int| 0 <= j < 4 ==> entry_feature_id(j) != "ncx-present"@ && entry_feature_id(j) != "encryption-xml"@,
        forall|j: int| 0 <= j < 2 ==> opf_feature_id(j) != "ncx-present"@ && opf_feature_id(j) != "encryption-xml"@,
        "archive-comment"@ != "ncx-present"@,
        "archive-comment"@ != "encryption-xml"@,
        "ncx-present"@ != "encryption-xml"@,
{
    reveal_strlit("xml-comment");
    reveal_strlit("processing-instruction");
    reveal_strlit("cdata-section");
    reveal_strlit("doctype-declaration");
    reveal_strlit("internal-entity");
    reveal_strlit("byte-order-mark");
    reveal_strlit("crlf-line-endings");
    reveal_strlit("xml-standalone-declaration");
    reveal_strlit("uncommon-namespace-prefix");
    reveal_strlit("non-alphabetical-attribute-order");
    reveal_strlit("scripted-content");
    reveal_strlit("remote-resource");
    reveal_strlit("stored-entry-beyond-mimetype");
    reveal_strlit("zip-entry-comment");
    reveal_strlit("zip-extra-field");
    reveal_strlit("non-ascii-entry-name");
    reveal_strlit("archive-comment");
    reveal_strlit("epub2-package");
    reveal_strlit("opf-guide-element");
    reveal_strlit("ncx-present");
    reveal_strlit("encryption-xml");
    assert forall|j: int| 0 <= j < XML_FEATURES implies xml_feature_id(j) != "ncx-present"@ && xml_feature_id(j)
        != "encryption-xml"@ by {
        assert(xml_feature_id(j).len() != 11 || xml_feature_id(j)[0] != 'n');
        assert(xml_feature_id(j).len() != 14);
    }
    assert forall|j: int| 0 <= j < 4 implies entry_feature_id(j) != "ncx-present"@ && entry_feature_id(j)
        != "encryption-xml"@ by {
        assert(entry_feature_id(j).len() != 11 && entry_feature_id(j).len() != 14);
    }
    assert forall|j: int| 0 <= j < 2 implies opf_feature_id(j) != "ncx-present"@ && opf_feature_id(j)
        != "encryption-xml"@ by {
        assert(opf_feature_id(j).len() != 11 && opf_feature_id(j).len() != 14);
    }
    assert("archive-comment"@.len() != "ncx-present"@.len());
    assert("archive-comment"@.len() != "encryption-xml"@.len());
    assert("ncx-present"@.len() != "encryption-xml"@.len());
}

/// Keying by id turns a verdict at a first position into a detection.
proof fn lemma_reported(l: Seq<(Seq<char>, bool)>, q: int, p: int)
    requires
        0 <= q < l.len(),
        0 <= p < DETECTED_IDS,
        l[q] == (id_in_order(p), true),
        forall|j: int| 0 <= j < q ==> (#[trigger] l[j]).0 != id_in_order(p),
    ensures
        exists|m: int| 0 <= m < by_id(l, DETECTED_IDS as int).len() && #[trigger] by_id(l, DETECTED_IDS as int)[m] == (
            id_in_order(p),
            true,
        ),
{
    lemma_first_detection(l, id_in_order(p), q);
    lemma_by_id_holds(l, DETECTED_IDS as int, p, true);
}

/// A detector fires on its construct and no other detector moves: adding an
/// entry that is not a package document, whose bytes bring no content
/// construct the book lacked, and whose name and storage show no construct
/// the book lacked but the one with id `x`, changes the book's detections
/// only in that verdict. An added navigation control file, encryption
/// manifest, or entry with a non-ASCII name is reported.
pub proof fn law_an_added_entry_moves_only_its_detector(a: ArchiveView, e: EntryView, x: Seq<char>)
    requires
        any_xmlish(a.entries),
        !ends_with_ci(e.name, ".opf"@),
        forall|j: int| 0 <= j < XML_FEATURES && xmlish_name(e.name) && #[trigger] xml_feature(j, e.data) ==> xml_hit(
            a.entries,
            j,
            a.entries.len() as int,
        ),
        forall|j: int| 0 <= j < 4 && #[trigger] entry_feature(j, e) ==> entry_feature_id(j) == x || entry_hit(
            a.entries,
            j,
            a.entries.len() as int,
        ),
        ends_with_ci(e.name, ".ncx"@) ==> x == "ncx-present"@ || has_ncx(a.entries),
        e.name == "META-INF/encryption.xml"@ ==> x == "encryption-xml"@ || has_name(a.entries, "META-INF/encryption.xml"@),
    ensures
        differ_only_at(
            detections(a),
            detections(ArchiveView { entries: a.entries.push(e), comment: a.comment }),
            x,
        ),
        ends_with_ci(e.name, ".ncx"@) ==> exists|m: int| 0 <= m < detections(ArchiveView { entries: a.entries.push(e), comment: a.comment }).len()
            && #[trigger] detections(ArchiveView { entries: a.entries.push(e), comment: a.comment })[m] == ("ncx-present"@, true),
        e.name == "META-INF/encryption.xml"@ ==> exists|m: int| 0 <= m < detections(ArchiveView { entries: a.entries.push(e), comment: a.comment }).len()
            && #[trigger] detections(ArchiveView { entries: a.entries.push(e), comment: a.comment })[m] == ("encryption-xml"@, true),
        entry_feature(3, e) ==> exists|m: int| 0 <= m < detections(ArchiveView { entries: a.entries.push(e), comment: a.comment }).len()
            && #[trigger] detections(ArchiveView { entries: a.entries.push(e), comment: a.comment })[m] == ("non-ascii-entry-name"@, true),
{
    let b = ArchiveView { entries: a.entries.push(e), comment: a.comment };
    let ea = a.entries;
    let eb = b.entries;
    let n = ea.len() as int;
    assert forall|j: int| 0 <= j < n implies #[trigger] eb[j] == ea[j] by {}
    assert(eb[n] == e);
    let w0 = choose|w: int| 0 <= w < n && xmlish_name((#[trigger] ea[w]).name);
    assert(xmlish_name(eb[w0].name));
    assert(any_xmlish(eb));
    assert forall|j: int| 0 <= j < XML_FEATURES implies xml_hit(ea, j, n) == xml_hit(eb, j, n + 1) by {
        if xml_hit(ea, j, n) {
            let w = choose|w: int| 0 <= w < n && xmlish_name((#[trigger] ea[w]).name) && xml_feature(j, ea[w].data);
            assert(eb[w] == ea[w]);
        }
        if xml_hit(eb, j, n + 1) {
            let w = choose|w: int| 0 <= w < n + 1 && xmlish_name((#[trigger] eb[w]).name) && xml_feature(j, eb[w].data);
            if w < n {
                assert(eb[w] == ea[w]);
            }
        }
    }
    assert forall|j: int| 0 <= j < 4 implies entry_hit(eb, j, n + 1) == (entry_hit(ea, j, n) || entry_feature(j, e)) by {
        if entry_hit(ea, j, n) {
            let w = choose|w: int| 0 <= w < n && entry_feature(j, #[trigger] ea[w]);
            assert(eb[w] == ea[w]);
        }
        if entry_feature(j, e) {
            assert(entry_feature(j, eb[n]));
        }
        if entry_hit(eb, j, n + 1) {
            let w = choose|w: int| 0 <= w < n + 1 && entry_feature(j, #[trigger] eb[w]);
            if w < n {
                assert(eb[w] == ea[w]);
            }
        }
    }
    assert(has_opf(ea) == has_opf(eb)) by {
        if has_opf(ea) {
            let w = choose|w: int| 0 <= w < n && ends_with_ci((#[trigger] ea[w]).name, ".opf"@);
            assert(eb[w] == ea[w]);
        }
        if has_opf(eb) {
            let w = choose|w: int| 0 <= w < n + 1 && ends_with_ci((#[trigger] eb[w]).name, ".opf"@);
            assert(w < n);
            assert(eb[w] == ea[w]);
        }
    }
    if has_opf(ea) {
        let w = choose|w: int| 0 <= w < n && ends_with_ci((#[trigger] ea[w]).name, ".opf"@);
        lemma_some_first_opf(ea, w);
        let f = choose|f: int| first_opf(ea, f);
        assert(first_opf(eb, f)) by {
            assert forall|j: int| 0 <= j < f implies !ends_with_ci((#[trigger] eb[j]).name, ".opf"@) by {
                assert(eb[j] == ea[j]);
            }
        }
        lemma_opf_data_at(ea, f);
        lemma_opf_data_at(eb, f);
    }
    assert(has_ncx(eb) == (has_ncx(ea) || ends_with_ci(e.name, ".ncx"@))) by {
        if has_ncx(ea) {
            let w = choose|w: int| 0 <= w < n && ends_with_ci((#[trigger] ea[w]).name, ".ncx"@);
            assert(eb[w] == ea[w]);
        }
        if ends_with_ci(e.name, ".ncx"@) {
            assert(ends_with_ci(eb[n].name, ".ncx"@));
        }
        if has_ncx(eb) {
            let w = choose|w: int| 0 <= w < n + 1 && ends_with_ci((#[trigger] eb[w]).name, ".ncx"@);
            if w < n {
                assert(eb[w] == ea[w]);
            }
        }
    }
    let enc = "META-INF/encryption.xml"@;
    assert(has_name(eb, enc) == (has_name(ea, enc) || e.name == enc)) by {
        if has_name(ea, enc) {
            let w = choose|w: int| 0 <= w < n && (#[trigger] ea[w]).name == enc;
            assert(eb[w] == ea[w]);
        }
        if e.name == enc {
            assert(eb[n].name == enc);
        }
        if has_name(eb, enc) {
            let w = choose|w: int| 0 <= w < n + 1 && (#[trigger] eb[w]).name == enc;
            if w < n {
                assert(eb[w] == ea[w]);
            }
        }
    }
    let la = detection_list(a);
    let lb = detection_list(b);
    let ol: int = if has_opf(ea) { 2 } else { 0 };
    let q = XML_FEATURES as int + 5 + ol;
    assert(la.len() == lb.len() && la.len() == q + 2);
    assert(differ_only_at(la, lb, x)) by {
        assert forall|m: int| 0 <= m < la.len() implies (#[trigger] la[m]).0 == lb[m].0 && (la[m].1 != lb[m].1
            ==> la[m].0 == x) by {
            if m < XML_FEATURES {
                assert(xml_hit(ea, m, n) == xml_hit(eb, m, n + 1));
                if la[m].1 != lb[m].1 {
                    assert(xml_feature(m, e.data));
                }
            } else if m < XML_FEATURES + 4 {
                assert(entry_hit(eb, m - XML_FEATURES, n + 1) == (entry_hit(ea, m - XML_FEATURES, n) || entry_feature(
                    m - XML_FEATURES,
                    e,
                )));
            }
        }
    }
    lemma_by_id_alike(la, lb, x, DETECTED_IDS as int);
    let d = by_id(lb, DETECTED_IDS as int);
    assert(detections(b) == d);
    lemma_entry_ids_distinct(3);
    lemma_opf_ids_distinct();
    lemma_tail_ids_distinct();
    if ends_with_ci(e.name, ".ncx"@) {
        assert(lb[q] == ("ncx-present"@, true));
        assert("ncx-present"@ == id_in_order(8));
        assert forall|j: int| 0 <= j < q implies (#[trigger] lb[j]).0 != id_in_order(8) by {
            if j < XML_FEATURES {
                assert(lb[j].0 == xml_feature_id(j));
            } else if j < XML_FEATURES + 4 {
                assert(lb[j].0 == entry_feature_id(j - XML_FEATURES));
            } else if j > XML_FEATURES + 4 {
                assert(lb[j].0 == opf_feature_id(j - XML_FEATURES - 5));
            }
        }
        lemma_reported(lb, q, 8);
    }
    if e.name == enc {
        assert(lb[q + 1] == ("encryption-xml"@, true));
        assert("encryption-xml"@ == id_in_order(5));
        assert forall|j: int| 0 <= j < q + 1 implies (#[trigger] lb[j]).0 != id_in_order(5) by {
            if j < XML_FEATURES {
                assert(lb[j].0 == xml_feature_id(j));
            } else if j < XML_FEATURES + 4 {
                assert(lb[j].0 == entry_feature_id(j - XML_FEATURES));
            } else if j > XML_FEATURES + 4 && j < q {
                assert(lb[j].0 == opf_feature_id(j - XML_FEATURES - 5));
            }
        }
        lemma_reported(lb, q + 1, 5);
    }
    if entry_feature(3, e) {
        let p = XML_FEATURES as int + 3;
        assert(entry_hit(eb, 3, n + 1));
        assert(lb[p] == ("non-ascii-entry-name"@, true));
        assert("non-ascii-entry-name"@ == id_in_order(10));
        assert forall|j: int| 0 <= j < p implies (#[trigger] lb[j]).0 != id_in_order(10) by {
            if j < XML_FEATURES {
                assert(lb[j].0 == xml_feature_id(j));
            } else {
                assert(lb[j].0 == entry_feature_id(j - XML_FEATURES));
            }
        }
        lemma_reported(lb, p, 10);
    }
}

/// A link out of the book is seen: an XML-like entry whose bytes hold an
/// `href="http` or a `src="http` makes the book's detections report the
/// remote-resource feature present.
pub proof fn law_a_remote_link_is_observed(a: ArchiveView, i: int)
    requires
        0 <= i < a.entries.len(),
        xmlish_name(a.entries[i].name),
        contains_seq(a.entries[i].data, ascii_bytes("href=\"http"@)) || contains_seq(
            a.entries[i].data,
            ascii_bytes("src=\"http"@),
        ),
    ensures
        detections(a).contains(("remote-resource"@, true)),
{
    let es = a.entries;
    let n = es.len() as int;
    assert(xml_feature(11, es[i].data));
    assert(xml_hit(es, 11, n));
    assert(any_xmlish(es));
    let lb = detection_list(a);
    assert(lb[11] == (xml_feature_id(11), true));
    lemma_xml_ids_distinct(11);
    assert forall|j: int| 0 <= j < 11 implies (#[trigger] lb[j]).0 != id_in_order(13) by {
        assert(lb[j].0 == xml_feature_id(j));
    }
    assert(xml_feature_id(11) == id_in_order(13));
    lemma_reported(lb, 11, 13);
    let d = by_id(lb, DETECTED_IDS as int);
    let m = choose|m: int| 0 <= m < d.len() && #[trigger] d[m] == (id_in_order(13), true);
    assert(detections(a)[m] == ("remote-resource"@, true));
}

/// Every detection keyed by id is the first verdict reported for that id.
proof fn lemma_by_id_origin(l: Seq<(Seq<char>, bool)>, n: int, m: int)
    requires
        0 <= m < by_id(l, n).len(),
    ensures
        exists|p: int| 0 <= p < n && by_id(l, n)[m].0 == #[trigger] id_in_order(p) && detection_of(l, id_in_order(p))
            == Some(by_id(l, n)[m].1),
    decreases n,
{
    let prev = by_id(l, n - 1);
    if m < prev.len() {
        lemma_by_id_origin(l, n - 1, m);
        assert(by_id(l, n)[m] == prev[m]);
        let p = choose|p: int| 0 <= p < n - 1 && prev[m].0 == #[trigger] id_in_order(p) && detection_of(l, id_in_order(p))
            == Some(prev[m].1);
        assert(by_id(l, n)[m].0 == id_in_order(p));
    } else {
        assert(by_id(l, n)[m].0 == id_in_order(n - 1));
    }
}

/// A link out of the book is the only thing that makes its detector fire:
/// where the book's detections report the remote-resource feature present,
/// some XML-like entry holds an `href="http` or a `src="http`.
pub proof fn law_a_remote_resource_needs_a_link(a: ArchiveView)
    requires
        detections(a).contains(("remote-resource"@, true)),
    ensures
        exists|i: int| 0 <= i < a.entries.len() && xmlish_name(#[trigger] a.entries[i].name) && (contains_seq(
            a.entries[i].data,
            ascii_bytes("href=\"http"@),
        ) || contains_seq(a.entries[i].data, ascii_bytes("src=\"http"@))),
{
    let es = a.entries;
    let n = es.len() as int;
    let lb = detection_list(a);
    let rr = "remote-resource"@;
    let d = by_id(lb, DETECTED_IDS as int);
    let m = choose|m: int| 0 <= m < d.len() && d[m] == (rr, true);
    lemma_by_id_origin(lb, DETECTED_IDS as int, m);
    let p = choose|p: int| 0 <= p < DETECTED_IDS && d[m].0 == #[trigger] id_in_order(p) && detection_of(lb, id_in_order(p))
        == Some(d[m].1);
    assert(detection_of(lb, rr) == Some(true));
    lemma_xml_ids_distinct(11);
    lemma_entry_ids_distinct(0);
    lemma_entry_ids_distinct(1);
    lemma_entry_ids_distinct(2);
    lemma_entry_ids_distinct(3);
    lemma_opf_ids_distinct();
    lemma_tail_ids_distinct();
    assert(xml_feature_id(11) == rr);
    let xl: int = if any_xmlish(es) { XML_FEATURES as int } else { 0 };
    let el: int = if n > 0 { 4 } else { 0 };
    assert forall|i: int| 0 <= i < lb.len() && (#[trigger] lb[i]).0 == rr implies xl == XML_FEATURES && i == 11 by {
        if i < xl {
            assert(lb[i].0 == xml_feature_id(i));
        } else if i < xl + el {
            assert(lb[i].0 == entry_feature_id(i - xl));
            assert(xml_feature_id(11) != entry_feature_id(i - xl));
        } else if i == xl + el {
            assert(lb[i].0 == "archive-comment"@);
        } else if has_opf(es) && i < xl + el + 3 {
            assert(lb[i].0 == opf_feature_id(i - xl - el - 1));
        } else if i == lb.len() - 2 {
            assert(lb[i].0 == "ncx-present"@);
        } else {
            assert(lb[i].0 == "encryption-xml"@);
        }
    }
    let w = choose|i: int| 0 <= i < lb.len() && (#[trigger] lb[i]).0 == rr;
    assert(xl == XML_FEATURES && w == 11);
    assert forall|j: int| 0 <= j < 11 implies (#[trigger] lb[j]).0 != rr by {
        assert(lb[j].0 == xml_feature_id(j));
    }
    lemma_first_detection(lb, rr, 11);
    assert(lb[11].1);
    assert(xml_hit(es, 11, n));
    let i = choose|i: int| 0 <= i < n && xmlish_name((#[trigger] es[i]).name) && xml_feature(11, es[i].data);
    assert(xmlish_name(es[i].name));
}

} // verus!
