//! The classifier: two archives in, classified divergences out.
//!
//! It never counts. Counting is the caller's job, and keeping the two apart is
//! the point — a percentage computed before classification would be measuring
//! the writer's zip library rather than its fidelity.
//!
//! Narrower classes are tried before wider ones, so `ContentByteDiff` means
//! "differs, and none of the specific explanations fit" rather than "differs".

use vstd::prelude::*;
use crate::archive::{first_named, has_name, lookup, names_of, str_views, Archive, ArchiveView, Entry, EntryView};
use crate::producer::{container_path_in, find_opf, opf_entry, opf_fallback, opf_info, parse_opf, string_views};
use crate::detect::{first_opf, has_opf, lemma_some_first_opf};
use crate::xml::xml_events;
use crate::taxonomy::{bears, class_rank, group_of, Class, Divergence, DivergenceView, Group};
use crate::text::{
    bytes_eq, chars_of, debug_opt, debug_opt_string, debug_str, debug_text, decimal, ends_with_ci,
    ends_with_ci_exec, opt_str_eq, opt_view, push_decimal, str_eq,
};
use crate::xmlcmp::{infoset_eq, infoset_equal, lemma_add_cancel, picked};

verus! {

broadcast use vstd::seq_lib::group_to_multiset_ensures, vstd::multiset::group_multiset_axioms;

// ---------------------------------------------------------------------------
// Byte-level explanations
// ---------------------------------------------------------------------------

/// The bytes without a leading UTF-8 byte-order mark.
pub open spec fn strip_bom(d: Seq<u8>) -> Seq<u8> {
    if d.len() >= 3 && d[0] == 0xEF && d[1] == 0xBB && d[2] == 0xBF {
        d.subrange(3, d.len() as int)
    } else {
        d
    }
}

/// The bytes with every CRLF and every lone CR turned into LF.
pub open spec fn normalised_eol(d: Seq<u8>) -> Seq<u8>
    decreases d.len(),
{
    if d.len() == 0 {
        Seq::empty()
    } else if d[0] == 13 {
        if d.len() > 1 && d[1] == 10 {
            seq![10u8] + normalised_eol(d.subrange(2, d.len() as int))
        } else {
            seq![10u8] + normalised_eol(d.drop_first())
        }
    } else {
        seq![d[0]] + normalised_eol(d.drop_first())
    }
}

/// Whether a name has one of the XML-bearing extensions.
pub open spec fn xml_named(name: Seq<char>) -> bool {
    ends_with_ci(name, ".xhtml"@) || ends_with_ci(name, ".xml"@) || ends_with_ci(name, ".opf"@)
        || ends_with_ci(name, ".ncx"@) || ends_with_ci(name, ".html"@) || ends_with_ci(name, ".svg"@)
}

/// Where the bytes start once a leading byte-order mark is skipped.
fn bom_len(d: &[u8]) -> (n: usize)
    ensures
        n <= d@.len(),
        strip_bom(d@) == d@.subrange(n as int, d@.len() as int),
{
    if d.len() >= 3 && d[0] == 0xEF && d[1] == 0xBB && d[2] == 0xBF {
        3
    } else {
        assert(d@.subrange(0, d@.len() as int) =~= d@);
        0
    }
}

/// Whether two byte strings are equal once a leading byte-order mark is
/// dropped from each.
fn same_without_bom(a: &[u8], b: &[u8]) -> (r: bool)
    ensures
        r == (strip_bom(a@) == strip_bom(b@)),
{
    let oa = bom_len(a);
    let ob = bom_len(b);
    if a.len() - oa != b.len() - ob {
        assert(strip_bom(a@).len() != strip_bom(b@).len());
        return false;
    }
    let mut j: usize = oa;
    let mut k: usize = ob;
    while j < a.len()
        invariant
            oa <= j <= a@.len(),
            k == ob + (j - oa),
            a@.len() - oa == b@.len() - ob,
            ob <= b@.len(),
            strip_bom(a@) == a@.subrange(oa as int, a@.len() as int),
            strip_bom(b@) == b@.subrange(ob as int, b@.len() as int),
            forall|m: int| 0 <= m < j - oa ==> strip_bom(a@)[m] == strip_bom(b@)[m],
        decreases a@.len() - j,
    {
        if a[j] != b[k] {
            assert(strip_bom(a@)[j - oa] != strip_bom(b@)[j - oa]);
            return false;
        }
        j = j + 1;
        k = k + 1;
    }
    assert(strip_bom(a@) =~= strip_bom(b@));
    true
}

/// Every CRLF and every lone CR turned into LF.
fn normalise_eol(data: &[u8]) -> (out: Vec<u8>)
    ensures
        out@ == normalised_eol(data@),
{
    let mut out: Vec<u8> = Vec::new();
    let mut i: usize = 0;
    assert(data@.subrange(0, data@.len() as int) =~= data@);
    assert(Seq::<u8>::empty() + normalised_eol(data@) =~= normalised_eol(data@));
    while i < data.len()
        invariant
            i <= data@.len(),
            out@ + normalised_eol(data@.subrange(i as int, data@.len() as int)) == normalised_eol(data@),
        decreases data@.len() - i,
    {
        let ghost rest = data@.subrange(i as int, data@.len() as int);
        let ghost before = out@;
        if data[i] == 13 {
            out.push(10);
            if i + 1 < data.len() && data[i + 1] == 10 {
                assert(rest.subrange(2, rest.len() as int) =~= data@.subrange(i + 2, data@.len() as int));
                i = i + 2;
            } else {
                assert(rest.drop_first() =~= data@.subrange(i + 1, data@.len() as int));
                i = i + 1;
            }
        } else {
            out.push(data[i]);
            assert(rest.drop_first() =~= data@.subrange(i + 1, data@.len() as int));
            i = i + 1;
        }
        assert(out@ + normalised_eol(data@.subrange(i as int, data@.len() as int)) =~= before + normalised_eol(rest));
    }
    assert(data@.subrange(i as int, data@.len() as int) =~= Seq::<u8>::empty());
    assert(out@ + Seq::<u8>::empty() =~= out@);
    out
}

/// Whether an entry name looks like XML.
fn looks_like_xml(name: &str) -> (r: bool)
    ensures
        r == xml_named(name@),
{
    let cs = chars_of(name);
    ends_with_ci_exec(&cs, ".xhtml") || ends_with_ci_exec(&cs, ".xml") || ends_with_ci_exec(&cs, ".opf")
        || ends_with_ci_exec(&cs, ".ncx") || ends_with_ci_exec(&cs, ".html") || ends_with_ci_exec(&cs, ".svg")
}

// ---------------------------------------------------------------------------
// Report order
// ---------------------------------------------------------------------------

/// Lexicographic order on strings, by code point — the order of their UTF-8
/// bytes.
pub open spec fn chars_le(a: Seq<char>, b: Seq<char>) -> bool
    decreases a.len(),
{
    if a.len() == 0 {
        true
    } else if b.len() == 0 {
        false
    } else if a[0] != b[0] {
        (a[0] as int) < (b[0] as int)
    } else {
        chars_le(a.drop_first(), b.drop_first())
    }
}

/// Order on optional entry names: an archive-wide divergence first.
pub open spec fn entry_le(a: Option<Seq<char>>, b: Option<Seq<char>>) -> bool {
    match (a, b) {
        (None, _) => true,
        (Some(_), None) => false,
        (Some(x), Some(y)) => chars_le(x, y),
    }
}

/// Report order: by class, then by entry.
pub open spec fn key_le(a: DivergenceView, b: DivergenceView) -> bool {
    class_rank(a.class) < class_rank(b.class) || (class_rank(a.class) == class_rank(b.class) && entry_le(
        a.entry,
        b.entry,
    ))
}

/// `x` placed after every element of `s` that it does not precede.
pub open spec fn sorted_insert(s: Seq<DivergenceView>, x: DivergenceView) -> Seq<DivergenceView>
    decreases s.len(),
{
    if s.len() == 0 {
        seq![x]
    } else if key_le(s.last(), x) {
        s.push(x)
    } else {
        sorted_insert(s.drop_last(), x).push(s.last())
    }
}

/// A stable sort into report order: what sorting by the key leaves, ties in
/// the order they were found.
pub open spec fn stable_sorted(raw: Seq<DivergenceView>) -> Seq<DivergenceView>
    decreases raw.len(),
{
    if raw.len() == 0 {
        Seq::empty()
    } else {
        sorted_insert(stable_sorted(raw.drop_last()), raw.last())
    }
}

/// The views of a list of divergences.
pub open spec fn div_views(v: Seq<Divergence>) -> Seq<DivergenceView> {
    Seq::new(v.len(), |i: int| v[i]@)
}

/// Whether one string precedes or equals another.
pub fn str_le(a: &str, b: &str) -> (r: bool)
    ensures
        r == chars_le(a@, b@),
{
    let x = chars_of(a);
    let y = chars_of(b);
    let mut i: usize = 0;
    assert(a@.skip(0) =~= a@);
    assert(b@.skip(0) =~= b@);
    while i < x.len() && i < y.len() && x[i] == y[i]
        invariant
            x@ == a@,
            y@ == b@,
            i <= x@.len(),
            i <= y@.len(),
            chars_le(a@, b@) == chars_le(a@.skip(i as int), b@.skip(i as int)),
        decreases x@.len() - i,
    {
        assert(a@.skip(i as int).drop_first() =~= a@.skip(i + 1));
        assert(b@.skip(i as int).drop_first() =~= b@.skip(i + 1));
        i = i + 1;
    }
    if i == x.len() {
        true
    } else if i == y.len() {
        false
    } else {
        x[i] < y[i]
    }
}

/// Whether `a` may stand before `b` in report order.
fn key_le_exec(a: &Divergence, b: &Divergence) -> (r: bool)
    ensures
        r == key_le(a@, b@),
{
    let ra = a.class.rank();
    let rb = b.class.rank();
    if ra != rb {
        return ra < rb;
    }
    match (&a.entry, &b.entry) {
        (None, _) => true,
        (Some(_), None) => false,
        (Some(x), Some(y)) => str_le(x.as_str(), y.as_str()),
    }
}

/// Inserting at the position a scan from the end finds is `sorted_insert`.
proof fn lemma_sorted_insert_at(s: Seq<DivergenceView>, x: DivergenceView, p: int)
    requires
        0 <= p <= s.len(),
        p == 0 || key_le(s[p - 1], x),
        forall|k: int| p <= k < s.len() ==> !key_le(#[trigger] s[k], x),
    ensures
        sorted_insert(s, x) == s.insert(p, x),
    decreases s.len(),
{
    if s.len() == 0 {
        assert(s.insert(p, x) =~= seq![x]);
    } else if key_le(s.last(), x) {
        if p < s.len() {
            assert(!key_le(s[s.len() - 1], x));
        }
        assert(s.insert(p, x) =~= s.push(x));
    } else {
        assert(p < s.len());
        let d = s.drop_last();
        assert forall|k: int| p <= k < d.len() implies !key_le(#[trigger] d[k], x) by {
            assert(d[k] == s[k]);
        }
        if p > 0 {
            assert(d[p - 1] == s[p - 1]);
        }
        lemma_sorted_insert_at(d, x, p);
        assert(d.insert(p, x).push(s.last()) =~= s.insert(p, x));
    }
}

/// Sort divergences into report order, ties in the order they were found.
fn sort_report(raw: Vec<Divergence>) -> (r: Vec<Divergence>)
    ensures
        div_views(r@) == stable_sorted(div_views(raw@)),
{
    let ghost rv = div_views(raw@);
    let n = raw.len();
    let mut rem = raw;
    let mut out: Vec<Divergence> = Vec::new();
    let mut i: usize = 0;
    assert(rv.take(0) =~= Seq::<DivergenceView>::empty());
    assert(div_views(out@) =~= Seq::<DivergenceView>::empty());
    while rem.len() > 0
        invariant
            rv.len() == n,
            i <= rv.len(),
            div_views(rem@) == rv.skip(i as int),
            div_views(out@) == stable_sorted(rv.take(i as int)),
        decreases rem@.len(),
    {
        let ghost before = rem@;
        assert(rv.skip(i as int).len() == before.len());
        assert(i < rv.len());
        assert(div_views(before)[0] == rv.skip(i as int)[0]);
        assert(rv.skip(i as int)[0] == rv[i as int]);
        let d = rem.remove(0);
        assert(d == before[0]);
        assert(d@ == rv[i as int]);
        let ghost s = div_views(out@);
        let mut p: usize = out.len();
        while p > 0 && !key_le_exec(&out[p - 1], &d)
            invariant
                s == div_views(out@),
                p <= out@.len(),
                forall|k: int| p <= k < s.len() ==> !key_le(#[trigger] s[k], d@),
            decreases p,
        {
            assert(s[p - 1] == out@[p - 1]@);
            p = p - 1;
        }
        proof {
            if p > 0 {
                assert(s[p - 1] == out@[p - 1]@);
            }
            lemma_sorted_insert_at(s, d@, p as int);
        }
        out.insert(p, d);
        proof {
            assert(div_views(out@) =~= s.insert(p as int, d@));
            assert(rv.take(i + 1).drop_last() =~= rv.take(i as int));
            assert(rem@ =~= before.remove(0));
            assert forall|m: int| 0 <= m < rem@.len() implies div_views(rem@)[m] == rv.skip(i + 1)[m] by {
                assert(rem@[m] == before[m + 1]);
                assert(div_views(before)[m + 1] == rv.skip(i as int)[m + 1]);
            }
            assert(div_views(rem@) =~= rv.skip(i + 1));
        }
        i = i + 1;
    }
    assert(rv.take(i as int) =~= rv);
    out
}

// ---------------------------------------------------------------------------
// What each comparison finds
// ---------------------------------------------------------------------------

/// A divergence, as a value.
pub open spec fn dv(class: Class, entry: Option<Seq<char>>, detail: Seq<char>) -> DivergenceView {
    DivergenceView { class, entry, detail }
}

/// For the first `n` entries of `s`, one divergence of `class` for each name
/// `r` lacks, its detail the entry's length and `suffix`.
pub open spec fn absent_upto(s: Seq<EntryView>, r: Seq<EntryView>, n: int, class: Class, suffix: Seq<char>) -> Seq<DivergenceView>
    decreases n,
{
    if n <= 0 {
        Seq::empty()
    } else {
        let e = s[n - 1];
        absent_upto(s, r, n - 1, class, suffix) + if lookup(r, e.name) is None {
            seq![dv(class, Some(e.name), decimal(e.data.len()) + suffix)]
        } else {
            Seq::empty()
        }
    }
}

/// Suffix of an `EntryMissing` detail.
pub open spec fn missing_suffix() -> Seq<char> {
    " bytes in source, absent from round-trip"@
}

/// Suffix of an `EntryAdded` detail.
pub open spec fn added_suffix() -> Seq<char> {
    " bytes, not present in source"@
}

/// Identical bytes: what is left is how they were stored.
pub open spec fn storage(a: EntryView, b: EntryView) -> Seq<DivergenceView> {
    let name = Some(a.name);
    let method = if a.method != b.method {
        seq![dv(Class::CompressionMethod, name, a.method + " -> "@ + b.method)]
    } else if a.compressed_size != b.compressed_size {
        seq![dv(Class::CompressionLevel, name, "compressed "@ + decimal(a.compressed_size as nat) + " -> "@
            + decimal(b.compressed_size as nat) + " bytes, content identical"@)]
    } else {
        Seq::empty()
    };
    let time = if a.modified != b.modified {
        seq![dv(Class::Timestamp, name, debug_opt(a.modified) + " -> "@ + debug_opt(b.modified))]
    } else {
        Seq::empty()
    };
    let extra = if a.extra != b.extra {
        seq![dv(Class::ExtraField, name, decimal(a.extra.len()) + " -> "@ + decimal(b.extra.len())
            + " bytes of extra field"@)]
    } else {
        Seq::empty()
    };
    let comment = if a.comment != b.comment {
        seq![dv(Class::Comment, name, "entry comment differs"@)]
    } else {
        Seq::empty()
    };
    method + time + extra + comment
}

/// Bytes differ: the narrowest explanation that fits.
pub open spec fn content(a: EntryView, b: EntryView) -> DivergenceView {
    let name = Some(a.name);
    let detail = decimal(a.data.len()) + " -> "@ + decimal(b.data.len()) + " bytes"@;
    if strip_bom(a.data) == strip_bom(b.data) {
        dv(Class::TextEncoding, name, "byte-order mark differs; "@ + detail)
    } else if normalised_eol(a.data) == normalised_eol(b.data) {
        dv(Class::LineEndings, name, "line endings differ; "@ + detail)
    } else if xml_named(a.name) && infoset_eq(a.data, b.data) {
        dv(Class::XmlCanonicalization, name, "XML infoset preserved, serialisation differs; "@ + detail)
    } else {
        dv(Class::ContentByteDiff, name, detail)
    }
}

/// What the first `n` entries of `s` show against their namesakes in `r`.
pub open spec fn common_upto(s: Seq<EntryView>, r: Seq<EntryView>, n: int) -> Seq<DivergenceView>
    decreases n,
{
    if n <= 0 {
        Seq::empty()
    } else {
        let a = s[n - 1];
        common_upto(s, r, n - 1) + match lookup(r, a.name) {
            Some(b) => if a.data == b.data { storage(a, b) } else { seq![content(a, b)] },
            None => Seq::empty(),
        }
    }
}

/// The same entries in a different order. Only meaningful when membership
/// matches; otherwise the membership classes already carry the finding.
pub open spec fn order_check(s: ArchiveView, r: ArchiveView) -> Seq<DivergenceView> {
    let a = names_of(s.entries);
    let b = names_of(r.entries);
    if a.to_multiset() == b.to_multiset() && a != b {
        seq![dv(Class::EntryOrder, None, "same "@ + decimal(a.len()) + " entries, different central-directory order"@)]
    } else {
        Seq::empty()
    }
}

/// The archive comment.
pub open spec fn comment_check(s: ArchiveView, r: ArchiveView) -> Seq<DivergenceView> {
    if s.comment != r.comment {
        seq![dv(Class::Comment, None, "archive comment differs"@)]
    } else {
        Seq::empty()
    }
}

/// `mimetype` must come first, stored.
pub open spec fn first_check(r: Seq<EntryView>) -> Seq<DivergenceView> {
    if r.len() == 0 {
        Seq::empty()
    } else if r[0].name == "mimetype"@ {
        if r[0].method != "Stored"@ {
            seq![dv(Class::MimetypeCompressed, Some("mimetype"@), "stored as "@ + r[0].method
                + "; OCF requires uncompressed"@)]
        } else {
            Seq::empty()
        }
    } else {
        seq![dv(Class::MimetypeNotFirst, Some(r[0].name), "first entry is "@ + debug_text(r[0].name)
            + "; OCF requires mimetype"@)]
    }
}

/// Of the first `n` entries, those whose header declares another size than
/// they hold.
pub open spec fn declared_upto(r: Seq<EntryView>, n: int) -> Seq<DivergenceView>
    decreases n,
{
    if n <= 0 {
        Seq::empty()
    } else {
        let e = r[n - 1];
        declared_upto(r, n - 1) + if e.declared_size != e.data.len() {
            seq![dv(Class::DeclaredSizeMismatch, Some(e.name), "header declares "@ + decimal(
                e.declared_size as nat,
            ) + " bytes, entry holds "@ + decimal(e.data.len()))]
        } else {
            Seq::empty()
        }
    }
}

/// One past the last `/` among the first `n` characters, or 0.
pub open spec fn dir_len(name: Seq<char>, n: int) -> int
    decreases n,
{
    if n <= 0 || n > name.len() {
        0
    } else if name[n - 1] == '/' {
        n
    } else {
        dir_len(name, n - 1)
    }
}

/// The directory part of an entry name, with its trailing `/`.
pub open spec fn dir_of(name: Seq<char>) -> Seq<char> {
    name.take(dir_len(name, name.len() as int))
}

/// Detail of a `ManifestMismatch`.
pub open spec fn unlisted_detail() -> Seq<char> {
    "declared in the package manifest, absent from the container"@
}

/// Of the first `n` manifest hrefs, resolved against the package document's
/// directory, those that name no entry.
pub open spec fn unlisted_upto(es: Seq<EntryView>, dir: Seq<char>, hrefs: Seq<Seq<char>>, n: int) -> Seq<DivergenceView>
    decreases n,
{
    if n <= 0 {
        Seq::empty()
    } else {
        let path = dir + hrefs[n - 1];
        unlisted_upto(es, dir, hrefs, n - 1) + if has_name(es, path) {
            Seq::empty()
        } else {
            seq![dv(Class::ManifestMismatch, Some(path), unlisted_detail())]
        }
    }
}

/// The package manifest against the container it sits in.
pub open spec fn manifest_check(r: ArchiveView) -> Seq<DivergenceView> {
    match opf_entry(r) {
        Some(opf) => {
            let hrefs = opf_info(opf.data).hrefs;
            unlisted_upto(r.entries, dir_of(opf.name), hrefs, hrefs.len() as int)
        },
        None => Seq::empty(),
    }
}

/// Everything the comparisons find, in the order they find it: membership,
/// then the common entries, then order, archive metadata, and the structural
/// claims of the round-trip alone.
pub open spec fn raw_divergences(s: ArchiveView, r: ArchiveView) -> Seq<DivergenceView> {
    absent_upto(s.entries, r.entries, s.entries.len() as int, Class::EntryMissing, missing_suffix())
        + absent_upto(r.entries, s.entries, r.entries.len() as int, Class::EntryAdded, added_suffix())
        + common_upto(s.entries, r.entries, s.entries.len() as int)
        + order_check(s, r)
        + comment_check(s, r)
        + first_check(r.entries)
        + declared_upto(r.entries, r.entries.len() as int)
        + manifest_check(r)
}

/// What the classifier reports: every divergence found, in report order.
pub open spec fn classification(s: ArchiveView, r: ArchiveView) -> Seq<DivergenceView> {
    stable_sorted(raw_divergences(s, r))
}

// ---------------------------------------------------------------------------
// The comparisons
// ---------------------------------------------------------------------------

/// One divergence per entry of `xs` whose name `other` lacks.
fn absent_entries(xs: &Archive, other: &Archive, class: Class, suffix: &str, out: &mut Vec<Divergence>)
    ensures
        div_views(final(out)@) == div_views(old(out)@) + absent_upto(
            xs@.entries,
            other@.entries,
            xs@.entries.len() as int,
            class,
            suffix@,
        ),
{
    let ghost start = div_views(out@);
    let mut i: usize = 0;
    assert(start + Seq::<DivergenceView>::empty() =~= start);
    while i < xs.entries.len()
        invariant
            i <= xs@.entries.len(),
            div_views(out@) == start + absent_upto(xs@.entries, other@.entries, i as int, class, suffix@),
        decreases xs@.entries.len() - i,
    {
        let e = &xs.entries[i];
        assert(e@ == xs@.entries[i as int]);
        let ghost before = div_views(out@);
        if other.get(e.name.as_str()).is_none() {
            let mut detail = String::new();
            push_decimal(&mut detail, e.data.len() as u64);
            detail.append(suffix);
            out.push(Divergence::entry(class, e.name.as_str(), detail.as_str()));
            assert(div_views(out@) =~= before.push(dv(class, Some(e.name@), decimal(e.data@.len()) + suffix@)));
        }
        i = i + 1;
        assert(div_views(out@) =~= start + absent_upto(xs@.entries, other@.entries, i as int, class, suffix@));
    }
}

/// Which entries exist on one side only.
fn compare_membership(source: &Archive, roundtrip: &Archive, out: &mut Vec<Divergence>)
    ensures
        div_views(final(out)@) == div_views(old(out)@) + absent_upto(
            source@.entries,
            roundtrip@.entries,
            source@.entries.len() as int,
            Class::EntryMissing,
            missing_suffix(),
        ) + absent_upto(
            roundtrip@.entries,
            source@.entries,
            roundtrip@.entries.len() as int,
            Class::EntryAdded,
            added_suffix(),
        ),
{
    absent_entries(source, roundtrip, Class::EntryMissing, " bytes in source, absent from round-trip", out);
    absent_entries(roundtrip, source, Class::EntryAdded, " bytes, not present in source", out);
}

/// Identical bytes: anything left is how the bytes were stored.
fn compare_storage(a: &Entry, b: &Entry, out: &mut Vec<Divergence>)
    ensures
        div_views(final(out)@) == div_views(old(out)@) + storage(a@, b@),
{
    let ghost start = div_views(out@);
    let name = a.name.as_str();
    if !str_eq(a.method.as_str(), b.method.as_str()) {
        let mut d = a.method.clone();
        d.append(" -> ");
        d.append(b.method.as_str());
        out.push(Divergence::entry(Class::CompressionMethod, name, d.as_str()));
    } else if a.compressed_size != b.compressed_size {
        let mut d = "compressed ".to_owned();
        push_decimal(&mut d, a.compressed_size);
        d.append(" -> ");
        push_decimal(&mut d, b.compressed_size);
        d.append(" bytes, content identical");
        out.push(Divergence::entry(Class::CompressionLevel, name, d.as_str()));
    }
    let ghost after_method = div_views(out@);
    if !opt_str_eq(&a.modified, &b.modified) {
        let mut d = debug_opt_string(&a.modified);
        d.append(" -> ");
        d.append(debug_opt_string(&b.modified).as_str());
        out.push(Divergence::entry(Class::Timestamp, name, d.as_str()));
    }
    let ghost after_time = div_views(out@);
    if !bytes_eq(a.extra.as_slice(), b.extra.as_slice()) {
        let mut d = String::new();
        push_decimal(&mut d, a.extra.len() as u64);
        d.append(" -> ");
        push_decimal(&mut d, b.extra.len() as u64);
        d.append(" bytes of extra field");
        out.push(Divergence::entry(Class::ExtraField, name, d.as_str()));
    }
    let ghost after_extra = div_views(out@);
    if !str_eq(a.comment.as_str(), b.comment.as_str()) {
        out.push(Divergence::entry(Class::Comment, name, "entry comment differs"));
    }
    assert(div_views(out@) =~= start + storage(a@, b@));
}

/// Bytes differ: the narrowest explanation that fits.
fn content_divergence(a: &Entry, b: &Entry) -> (d: Divergence)
    ensures
        d@ == content(a@, b@),
{
    let mut detail = String::new();
    push_decimal(&mut detail, a.data.len() as u64);
    detail.append(" -> ");
    push_decimal(&mut detail, b.data.len() as u64);
    detail.append(" bytes");
    let name = a.name.as_str();
    if same_without_bom(a.data.as_slice(), b.data.as_slice()) {
        let mut t = "byte-order mark differs; ".to_owned();
        t.append(detail.as_str());
        return Divergence::entry(Class::TextEncoding, name, t.as_str());
    }
    let ea = normalise_eol(a.data.as_slice());
    let eb = normalise_eol(b.data.as_slice());
    if bytes_eq(ea.as_slice(), eb.as_slice()) {
        let mut t = "line endings differ; ".to_owned();
        t.append(detail.as_str());
        return Divergence::entry(Class::LineEndings, name, t.as_str());
    }
    if looks_like_xml(name) && infoset_equal(a.data.as_slice(), b.data.as_slice()) {
        let mut t = "XML infoset preserved, serialisation differs; ".to_owned();
        t.append(detail.as_str());
        return Divergence::entry(Class::XmlCanonicalization, name, t.as_str());
    }
    Divergence::entry(Class::ContentByteDiff, name, detail.as_str())
}

/// Entries present on both sides, compared.
fn compare_common_entries(source: &Archive, roundtrip: &Archive, out: &mut Vec<Divergence>)
    ensures
        div_views(final(out)@) == div_views(old(out)@) + common_upto(
            source@.entries,
            roundtrip@.entries,
            source@.entries.len() as int,
        ),
{
    let ghost start = div_views(out@);
    let mut i: usize = 0;
    assert(start + Seq::<DivergenceView>::empty() =~= start);
    while i < source.entries.len()
        invariant
            i <= source@.entries.len(),
            div_views(out@) == start + common_upto(source@.entries, roundtrip@.entries, i as int),
        decreases source@.entries.len() - i,
    {
        let a = &source.entries[i];
        assert(a@ == source@.entries[i as int]);
        let ghost before = div_views(out@);
        match roundtrip.get(a.name.as_str()) {
            Some(b) => {
                if bytes_eq(a.data.as_slice(), b.data.as_slice()) {
                    compare_storage(a, b, out);
                } else {
                    out.push(content_divergence(a, b));
                    assert(div_views(out@) =~= before.push(content(a@, b@)));
                }
            },
            None => {},
        }
        i = i + 1;
        assert(div_views(out@) =~= start + common_upto(source@.entries, roundtrip@.entries, i as int));
    }
}

/// Whether two name lists are equal.
fn names_equal(a: &Vec<&str>, b: &Vec<&str>) -> (r: bool)
    ensures
        r == (str_views(a@) == str_views(b@)),
{
    if a.len() != b.len() {
        assert(str_views(a@).len() != str_views(b@).len());
        return false;
    }
    let mut i: usize = 0;
    while i < a.len()
        invariant
            a@.len() == b@.len(),
            i <= a@.len(),
            forall|k: int| 0 <= k < i ==> str_views(a@)[k] == str_views(b@)[k],
        decreases a@.len() - i,
    {
        if !str_eq(a[i], b[i]) {
            assert(str_views(a@)[i as int] != str_views(b@)[i as int]);
            return false;
        }
        i = i + 1;
    }
    assert(str_views(a@) =~= str_views(b@));
    true
}

/// Whether two name lists hold the same names, in any order.
fn same_names(a: &Vec<&str>, b: &Vec<&str>) -> (r: bool)
    ensures
        r == (str_views(a@).to_multiset() == str_views(b@).to_multiset()),
{
    let ghost av = str_views(a@);
    let ghost bv = str_views(b@);
    let mut rem: Vec<usize> = Vec::new();
    let mut j: usize = 0;
    while j < b.len()
        invariant
            j <= b@.len(),
            rem@.len() == j,
            forall|k: int| 0 <= k < j ==> rem@[k] == k,
        decreases b@.len() - j,
    {
        rem.push(j);
        j = j + 1;
    }
    assert(picked(bv, rem@) =~= bv);
    assert(av.take(0) =~= Seq::<Seq<char>>::empty());
    let mut i: usize = 0;
    while i < a.len()
        invariant
            av == str_views(a@),
            bv == str_views(b@),
            i <= a@.len(),
            forall|k: int| 0 <= k < rem@.len() ==> (#[trigger] rem@[k]) < b@.len(),
            av.take(i as int).to_multiset().add(picked(bv, rem@).to_multiset()) == bv.to_multiset(),
        decreases a@.len() - i,
    {
        let mut k: usize = 0;
        while k < rem.len() && !str_eq(a[i], b[rem[k]])
            invariant
                av == str_views(a@),
                bv == str_views(b@),
                i < a@.len(),
                k <= rem@.len(),
                forall|m: int| 0 <= m < rem@.len() ==> (#[trigger] rem@[m]) < b@.len(),
                forall|m: int| 0 <= m < k ==> picked(bv, rem@)[m] != av[i as int],
            decreases rem@.len() - k,
        {
            k = k + 1;
        }
        if k < rem.len() {
            let ghost p = picked(bv, rem@);
            assert(p[k as int] == av[i as int]);
            rem.remove(k);
            proof {
                assert(picked(bv, rem@) =~= p.remove(k as int));
                assert(av.take(i + 1) =~= av.take(i as int).push(av[i as int]));
                let t = av.take(i as int).to_multiset();
                assert(av.take(i + 1).to_multiset() == t.insert(av[i as int]));
                assert(picked(bv, rem@).to_multiset() == p.to_multiset().remove(av[i as int]));
                assert(p.to_multiset().count(av[i as int]) > 0) by {
                    assert(p.contains(p[k as int]));
                }
                assert(t.insert(av[i as int]).add(p.to_multiset().remove(av[i as int])) =~= t.add(p.to_multiset()));
            }
        } else {
            proof {
                let p = picked(bv, rem@);
                let x = av[i as int];
                assert(!p.contains(x)) by {
                    if p.contains(x) {
                        let w = choose|w: int| 0 <= w < p.len() && p[w] == x;
                        assert(picked(bv, rem@)[w] != av[i as int]);
                    }
                }
                if av.to_multiset() == bv.to_multiset() {
                    assert(av =~= av.take(i as int) + av.skip(i as int));
                    vstd::seq_lib::lemma_multiset_commutative(av.take(i as int), av.skip(i as int));
                    lemma_add_cancel(av.take(i as int).to_multiset(), p.to_multiset(), av.skip(i as int).to_multiset());
                    assert(av.skip(i as int)[0] == x);
                    assert(av.skip(i as int).contains(x));
                    assert(av.skip(i as int).to_multiset().count(x) > 0);
                    assert(p.to_multiset().count(x) > 0);
                }
            }
            return false;
        }
        i = i + 1;
    }
    proof {
        assert(av.take(a@.len() as int) =~= av);
        let p = picked(bv, rem@);
        if rem@.len() != 0 {
            assert(av.to_multiset().len() + p.to_multiset().len() == bv.to_multiset().len());
            assert(p.to_multiset().len() == p.len());
        } else {
            assert(p =~= Seq::<Seq<char>>::empty());
            assert(av.to_multiset().add(p.to_multiset()) =~= av.to_multiset());
        }
    }
    rem.len() == 0
}

/// The same entries, stored in a different order.
fn compare_order(source: &Archive, roundtrip: &Archive, out: &mut Vec<Divergence>)
    ensures
        div_views(final(out)@) == div_views(old(out)@) + order_check(source@, roundtrip@),
{
    let a = source.order();
    let b = roundtrip.order();
    let ghost before = div_views(out@);
    if same_names(&a, &b) && !names_equal(&a, &b) {
        let mut d = "same ".to_owned();
        push_decimal(&mut d, a.len() as u64);
        d.append(" entries, different central-directory order");
        out.push(Divergence::archive(Class::EntryOrder, d.as_str()));
        assert(div_views(out@) =~= before + order_check(source@, roundtrip@));
    } else {
        assert(div_views(out@) =~= before + order_check(source@, roundtrip@));
    }
}

/// The archive-level comment.
fn compare_archive_metadata(source: &Archive, roundtrip: &Archive, out: &mut Vec<Divergence>)
    ensures
        div_views(final(out)@) == div_views(old(out)@) + comment_check(source@, roundtrip@),
{
    let ghost before = div_views(out@);
    if !str_eq(source.comment.as_str(), roundtrip.comment.as_str()) {
        out.push(Divergence::archive(Class::Comment, "archive comment differs"));
    }
    assert(div_views(out@) =~= before + comment_check(source@, roundtrip@));
}

/// Structural claims the round-trip makes about itself: `mimetype` first and
/// stored, and every header's size true. The source's own compliance is beside
/// the point — a writer that breaks them has produced an invalid file.
fn check_ocf_invariants(roundtrip: &Archive, out: &mut Vec<Divergence>)
    ensures
        div_views(final(out)@) == div_views(old(out)@) + first_check(roundtrip@.entries) + declared_upto(
            roundtrip@.entries,
            roundtrip@.entries.len() as int,
        ),
{
    proof {
        reveal_strlit("mimetype");
        reveal_strlit("Stored");
    }
    let ghost start = div_views(out@);
    let ghost es = roundtrip@.entries;
    if roundtrip.entries.len() > 0 {
        let first = &roundtrip.entries[0];
        assert(first@ == es[0]);
        if str_eq(first.name.as_str(), "mimetype") {
            if !str_eq(first.method.as_str(), "Stored") {
                let mut d = "stored as ".to_owned();
                d.append(first.method.as_str());
                d.append("; OCF requires uncompressed");
                out.push(Divergence::entry(Class::MimetypeCompressed, "mimetype", d.as_str()));
            }
        } else {
            let mut d = "first entry is ".to_owned();
            d.append(debug_str(first.name.as_str()).as_str());
            d.append("; OCF requires mimetype");
            out.push(Divergence::entry(Class::MimetypeNotFirst, first.name.as_str(), d.as_str()));
        }
    }
    assert(div_views(out@) =~= start + first_check(es));
    let ghost mid = div_views(out@);
    let mut i: usize = 0;
    assert(mid + Seq::<DivergenceView>::empty() =~= mid);
    while i < roundtrip.entries.len()
        invariant
            es == roundtrip@.entries,
            i <= es.len(),
            div_views(out@) == mid + declared_upto(es, i as int),
        decreases es.len() - i,
    {
        let e = &roundtrip.entries[i];
        assert(e@ == es[i as int]);
        let ghost before = div_views(out@);
        if e.declared_size != e.data.len() as u64 {
            let mut d = "header declares ".to_owned();
            push_decimal(&mut d, e.declared_size);
            d.append(" bytes, entry holds ");
            push_decimal(&mut d, e.data.len() as u64);
            out.push(Divergence::entry(Class::DeclaredSizeMismatch, e.name.as_str(), d.as_str()));
            assert(div_views(out@) =~= before.push(dv(Class::DeclaredSizeMismatch, Some(e.name@), "header declares "@
                + decimal(e.declared_size as nat) + " bytes, entry holds "@ + decimal(e.data@.len()))));
        }
        i = i + 1;
        assert(div_views(out@) =~= mid + declared_upto(es, i as int));
    }
    assert(div_views(out@) =~= start + first_check(es) + declared_upto(es, es.len() as int));
}

/// The directory part of an entry name, with its trailing `/`.
fn dir_name(name: &str) -> (r: String)
    ensures
        r@ == dir_of(name@),
{
    let cs = chars_of(name);
    let mut n: usize = cs.len();
    while n > 0 && cs[n - 1] != '/'
        invariant
            cs@ == name@,
            n <= cs@.len(),
            dir_len(name@, n as int) == dir_len(name@, name@.len() as int),
        decreases n,
    {
        n = n - 1;
    }
    assert(dir_len(name@, n as int) == n as int);
    name.substring_char(0, n).to_owned()
}

/// The package manifest against the round-trip: every declared href,
/// resolved against the package document's directory, must name an entry.
fn check_manifest(roundtrip: &Archive, out: &mut Vec<Divergence>)
    ensures
        div_views(final(out)@) == div_views(old(out)@) + manifest_check(roundtrip@),
{
    let ghost start = div_views(out@);
    let opf = match find_opf(roundtrip) {
        Some(o) => o,
        None => {
            assert(div_views(out@) =~= start + manifest_check(roundtrip@));
            return;
        },
    };
    let dir = dir_name(opf.name.as_str());
    let info = parse_opf(opf.data.as_slice());
    let ghost hrefs = string_views(info.manifest_hrefs@);
    assert(hrefs == opf_info(opf@.data).hrefs);
    let mut i: usize = 0;
    assert(start + Seq::<DivergenceView>::empty() =~= start);
    while i < info.manifest_hrefs.len()
        invariant
            hrefs == string_views(info.manifest_hrefs@),
            i <= hrefs.len(),
            div_views(out@) == start + unlisted_upto(roundtrip@.entries, dir@, hrefs, i as int),
        decreases hrefs.len() - i,
    {
        let mut path = dir.clone();
        path.append(info.manifest_hrefs[i].as_str());
        assert(path@ == dir@ + hrefs[i as int]);
        let ghost before = div_views(out@);
        if roundtrip.get(path.as_str()).is_none() {
            assert(!has_name(roundtrip@.entries, path@));
            out.push(Divergence::entry(Class::ManifestMismatch, path.as_str(),
                "declared in the package manifest, absent from the container"));
            assert(div_views(out@) =~= before.push(dv(Class::ManifestMismatch, Some(path@), unlisted_detail())));
        } else {
            assert(has_name(roundtrip@.entries, path@));
        }
        i = i + 1;
        assert(div_views(out@) =~= start + unlisted_upto(roundtrip@.entries, dir@, hrefs, i as int));
    }
}

/// Compare a source container against its round-trip: every divergence
/// found, in report order — by class, then by entry, ties in the order found.
pub fn classify(source: &Archive, roundtrip: &Archive) -> (r: Vec<Divergence>)
    ensures
        div_views(r@) == classification(source@, roundtrip@),
{
    let mut out: Vec<Divergence> = Vec::new();
    assert(div_views(out@) =~= Seq::<DivergenceView>::empty());
    compare_membership(source, roundtrip, &mut out);
    compare_common_entries(source, roundtrip, &mut out);
    compare_order(source, roundtrip, &mut out);
    compare_archive_metadata(source, roundtrip, &mut out);
    check_ocf_invariants(roundtrip, &mut out);
    check_manifest(roundtrip, &mut out);
    assert(div_views(out@) =~= raw_divergences(source@, roundtrip@));
    sort_report(out)
}

// ---------------------------------------------------------------------------
// Laws
// ---------------------------------------------------------------------------

/// Code-point order on strings is total.
pub proof fn lemma_chars_le_total(a: Seq<char>, b: Seq<char>)
    ensures
        chars_le(a, b) || chars_le(b, a),
    decreases a.len(),
{
    if a.len() > 0 && b.len() > 0 {
        if a[0] == b[0] {
            lemma_chars_le_total(a.drop_first(), b.drop_first());
        } else {
            assert((a[0] as int) != (b[0] as int));
        }
    }
}

/// Two strings each at most the other are equal.
pub proof fn lemma_chars_le_antisymmetric(a: Seq<char>, b: Seq<char>)
    requires
        chars_le(a, b),
        chars_le(b, a),
    ensures
        a == b,
    decreases a.len(),
{
    if a.len() > 0 && b.len() > 0 {
        lemma_chars_le_antisymmetric(a.drop_first(), b.drop_first());
        assert(a =~= seq![a[0]] + a.drop_first());
        assert(b =~= seq![b[0]] + b.drop_first());
    }
    assert(a =~= b);
}

/// Code-point order on strings is transitive.
pub proof fn lemma_chars_le_transitive(a: Seq<char>, b: Seq<char>, c: Seq<char>)
    requires
        chars_le(a, b),
        chars_le(b, c),
    ensures
        chars_le(a, c),
    decreases a.len(),
{
    if a.len() > 0 && b.len() > 0 && c.len() > 0 && a[0] == b[0] && b[0] == c[0] {
        lemma_chars_le_transitive(a.drop_first(), b.drop_first(), c.drop_first());
    }
}

/// Report order is total and transitive.
proof fn lemma_key_order(x: DivergenceView, y: DivergenceView, z: DivergenceView)
    ensures
        key_le(x, y) || key_le(y, x),
        key_le(x, y) && key_le(y, z) ==> key_le(x, z),
{
    match (x.entry, y.entry) {
        (Some(a), Some(b)) => lemma_chars_le_total(a, b),
        _ => {},
    }
    if key_le(x, y) && key_le(y, z) {
        match (x.entry, y.entry, z.entry) {
            (Some(a), Some(b), Some(c)) => {
                if chars_le(a, b) && chars_le(b, c) {
                    lemma_chars_le_transitive(a, b, c);
                }
            },
            _ => {},
        }
    }
}

/// Whether a list is in report order.
pub open spec fn in_report_order(s: Seq<DivergenceView>) -> bool {
    forall|i: int, j: int| 0 <= i < j < s.len() ==> key_le(#[trigger] s[i], #[trigger] s[j])
}

/// Inserting keeps every element and adds one.
proof fn lemma_sorted_insert_multiset(s: Seq<DivergenceView>, x: DivergenceView)
    ensures
        sorted_insert(s, x).to_multiset() == s.to_multiset().insert(x),
    decreases s.len(),
{
    if s.len() == 0 {
        assert(seq![x] =~= Seq::<DivergenceView>::empty().push(x));
    } else if key_le(s.last(), x) {
    } else {
        lemma_sorted_insert_multiset(s.drop_last(), x);
        assert(s.drop_last().push(s.last()) =~= s);
        assert(s.to_multiset() == s.drop_last().to_multiset().insert(s.last()));
        assert(sorted_insert(s, x).to_multiset() =~= s.to_multiset().insert(x));
    }
}

/// Inserting into a list in report order leaves it in report order.
proof fn lemma_sorted_insert_ordered(s: Seq<DivergenceView>, x: DivergenceView)
    requires
        in_report_order(s),
    ensures
        in_report_order(sorted_insert(s, x)),
    decreases s.len(),
{
    if s.len() == 0 {
    } else if key_le(s.last(), x) {
        let t = s.push(x);
        assert forall|i: int, j: int| 0 <= i < j < t.len() implies key_le(#[trigger] t[i], #[trigger] t[j]) by {
            if j == s.len() {
                if i < s.len() - 1 {
                    lemma_key_order(s[i], s.last(), x);
                }
            }
        }
    } else {
        let d = s.drop_last();
        let last = s.last();
        assert(in_report_order(d)) by {
            assert forall|i: int, j: int| 0 <= i < j < d.len() implies key_le(#[trigger] d[i], #[trigger] d[j]) by {
                assert(d[i] == s[i] && d[j] == s[j]);
            }
        }
        lemma_sorted_insert_ordered(d, x);
        lemma_sorted_insert_multiset(d, x);
        let inner = sorted_insert(d, x);
        let t = inner.push(last);
        lemma_key_order(last, x, x);
        assert forall|i: int, j: int| 0 <= i < j < t.len() implies key_le(#[trigger] t[i], #[trigger] t[j]) by {
            if j == inner.len() {
                let y = inner[i];
                assert(inner.contains(y));
                assert(inner.to_multiset().count(y) > 0);
                assert(d.to_multiset().insert(x).count(y) > 0);
                if y != x {
                    assert(d.to_multiset().count(y) > 0);
                    assert(d.contains(y));
                    let k = choose|k: int| 0 <= k < d.len() && d[k] == y;
                    assert(s[k] == y);
                    assert(key_le(s[k], s[s.len() - 1]));
                }
            } else {
                assert(t[i] == inner[i] && t[j] == inner[j]);
            }
        }
    }
}

/// What the stable sort yields is in report order and holds exactly what it
/// was given.
proof fn lemma_stable_sorted(raw: Seq<DivergenceView>)
    ensures
        in_report_order(stable_sorted(raw)),
        stable_sorted(raw).to_multiset() == raw.to_multiset(),
    decreases raw.len(),
{
    if raw.len() > 0 {
        lemma_stable_sorted(raw.drop_last());
        lemma_sorted_insert_ordered(stable_sorted(raw.drop_last()), raw.last());
        lemma_sorted_insert_multiset(stable_sorted(raw.drop_last()), raw.last());
        assert(raw.drop_last().push(raw.last()) =~= raw);
    } else {
        assert(stable_sorted(raw) =~= Seq::<DivergenceView>::empty());
        assert(raw =~= Seq::<DivergenceView>::empty());
    }
}

/// The classifier loses nothing and invents nothing: its report holds
/// exactly the divergences its comparisons find, each as often as found, in
/// report order — by class, then by entry.
pub proof fn law_report_is_the_findings_in_order(s: ArchiveView, r: ArchiveView)
    ensures
        classification(s, r).to_multiset() == raw_divergences(s, r).to_multiset(),
        in_report_order(classification(s, r)),
{
    lemma_stable_sorted(raw_divergences(s, r));
}

/// Entry names are pairwise distinct.
pub open spec fn names_distinct(es: Seq<EntryView>) -> bool {
    forall|i: int, j: int| 0 <= i < j < es.len() ==> (#[trigger] es[i]).name != (#[trigger] es[j]).name
}

/// Every divergence in a list is a declared-versus-actual one.
pub open spec fn all_structural(s: Seq<DivergenceView>) -> bool {
    forall|i: int| 0 <= i < s.len() ==> group_of((#[trigger] s[i]).class) == Group::DeclaredActual
}

/// With distinct names, every entry is its own first namesake.
proof fn lemma_self_lookup(es: Seq<EntryView>, k: int)
    requires
        names_distinct(es),
        0 <= k < es.len(),
    ensures
        lookup(es, es[k].name) == Some(es[k]),
{
    assert forall|j: int| 0 <= j < k implies (#[trigger] es[j]).name != es[k].name by {
        assert(es[j].name != es[k].name);
    }
    crate::archive::lemma_first_named(es, es[k].name, k);
}

proof fn lemma_self_absent(es: Seq<EntryView>, n: int, class: Class, suffix: Seq<char>)
    requires
        names_distinct(es),
        n <= es.len(),
    ensures
        absent_upto(es, es, n, class, suffix) == Seq::<DivergenceView>::empty(),
    decreases n,
{
    if n > 0 {
        lemma_self_absent(es, n - 1, class, suffix);
        lemma_self_lookup(es, n - 1);
        assert(Seq::<DivergenceView>::empty() + Seq::<DivergenceView>::empty() =~= Seq::<DivergenceView>::empty());
    }
}

proof fn lemma_self_common(es: Seq<EntryView>, n: int)
    requires
        names_distinct(es),
        n <= es.len(),
    ensures
        common_upto(es, es, n) == Seq::<DivergenceView>::empty(),
    decreases n,
{
    if n > 0 {
        lemma_self_common(es, n - 1);
        lemma_self_lookup(es, n - 1);
        let e = es[n - 1];
        assert(storage(e, e) =~= Seq::<DivergenceView>::empty());
        assert(Seq::<DivergenceView>::empty() + Seq::<DivergenceView>::empty() =~= Seq::<DivergenceView>::empty());
    }
}

proof fn lemma_declared_structural(es: Seq<EntryView>, n: int)
    ensures
        all_structural(declared_upto(es, n)),
    decreases n,
{
    if n > 0 {
        lemma_declared_structural(es, n - 1);
        let a = declared_upto(es, n - 1);
        let b = declared_upto(es, n);
        assert forall|i: int| 0 <= i < b.len() implies group_of((#[trigger] b[i]).class) == Group::DeclaredActual by {
            if i < a.len() {
                assert(b[i] == a[i]);
            }
        }
    }
}

proof fn lemma_unlisted_structural(es: Seq<EntryView>, dir: Seq<char>, hrefs: Seq<Seq<char>>, n: int)
    ensures
        all_structural(unlisted_upto(es, dir, hrefs, n)),
    decreases n,
{
    if n > 0 {
        lemma_unlisted_structural(es, dir, hrefs, n - 1);
        let a = unlisted_upto(es, dir, hrefs, n - 1);
        let b = unlisted_upto(es, dir, hrefs, n);
        assert forall|i: int| 0 <= i < b.len() implies group_of((#[trigger] b[i]).class) == Group::DeclaredActual by {
            if i < a.len() {
                assert(b[i] == a[i]);
            }
        }
    }
}

/// An archive compared with itself shows no difference between the two: with
/// distinct entry names, the only divergences reported are structural claims
/// the archive makes about itself, so none bears on losslessness.
pub proof fn law_self_comparison_finds_only_structural_claims(a: ArchiveView)
    requires
        names_distinct(a.entries),
    ensures
        all_structural(classification(a, a)),
        forall|i: int| 0 <= i < classification(a, a).len() ==> !crate::taxonomy::bears(
            (#[trigger] classification(a, a)[i]).class,
        ),
{
    let es = a.entries;
    let n = es.len() as int;
    lemma_self_absent(es, n, Class::EntryMissing, missing_suffix());
    lemma_self_absent(es, n, Class::EntryAdded, added_suffix());
    lemma_self_common(es, n);
    lemma_declared_structural(es, n);
    let m = manifest_check(a);
    assert(all_structural(m)) by {
        match opf_entry(a) {
            Some(opf) => {
                let hrefs = opf_info(opf.data).hrefs;
                lemma_unlisted_structural(es, dir_of(opf.name), hrefs, hrefs.len() as int);
            },
            None => {},
        }
    }
    let raw = raw_divergences(a, a);
    let f = first_check(es);
    let d = declared_upto(es, n);
    assert(order_check(a, a) =~= Seq::<DivergenceView>::empty());
    assert(comment_check(a, a) =~= Seq::<DivergenceView>::empty());
    assert(raw =~= f + d + m);
    assert(all_structural(raw)) by {
        assert forall|i: int| 0 <= i < raw.len() implies group_of((#[trigger] raw[i]).class) == Group::DeclaredActual by {
            if i < f.len() {
                assert(raw[i] == f[i]);
            } else if i < f.len() + d.len() {
                assert(raw[i] == d[i - f.len()]);
            } else {
                assert(raw[i] == m[i - f.len() - d.len()]);
            }
        }
    }
    lemma_stable_sorted(raw);
    let c = classification(a, a);
    assert forall|i: int| 0 <= i < c.len() implies group_of((#[trigger] c[i]).class) == Group::DeclaredActual by {
        assert(c.contains(c[i]));
        assert(c.to_multiset().count(c[i]) > 0);
        assert(raw.to_multiset().count(c[i]) > 0);
        assert(raw.contains(c[i]));
        let k = choose|k: int| 0 <= k < raw.len() && raw[k] == c[i];
        assert(group_of(raw[k].class) == Group::DeclaredActual);
    }
}

/// Every entry holds the size its header declares.
pub open spec fn sizes_honest(es: Seq<EntryView>) -> bool {
    forall|i: int| 0 <= i < es.len() ==> (#[trigger] es[i]).declared_size == es[i].data.len()
}

/// The container opens with `mimetype`, stored, or holds nothing.
pub open spec fn mimetype_leads(es: Seq<EntryView>) -> bool {
    es.len() > 0 ==> es[0].name == "mimetype"@ && es[0].method == "Stored"@
}

/// Every file the package manifest lists, resolved against the package
/// document's directory, is an entry of the container.
pub open spec fn manifest_resolves(a: ArchiveView) -> bool {
    match opf_entry(a) {
        Some(opf) => {
            let hrefs = opf_info(opf.data).hrefs;
            forall|k: int| 0 <= k < hrefs.len() ==> has_name(a.entries, dir_of(opf.name) + #[trigger] hrefs[k])
        },
        None => true,
    }
}

proof fn lemma_declared_none(es: Seq<EntryView>, n: int)
    requires
        sizes_honest(es),
        n <= es.len(),
    ensures
        declared_upto(es, n) == Seq::<DivergenceView>::empty(),
    decreases n,
{
    if n > 0 {
        lemma_declared_none(es, n - 1);
        assert(es[n - 1].declared_size == es[n - 1].data.len());
        assert(Seq::<DivergenceView>::empty() + Seq::<DivergenceView>::empty() =~= Seq::<DivergenceView>::empty());
    }
}

proof fn lemma_unlisted_none(es: Seq<EntryView>, dir: Seq<char>, hrefs: Seq<Seq<char>>, n: int)
    requires
        forall|k: int| 0 <= k < hrefs.len() ==> has_name(es, dir + #[trigger] hrefs[k]),
        n <= hrefs.len(),
    ensures
        unlisted_upto(es, dir, hrefs, n) == Seq::<DivergenceView>::empty(),
    decreases n,
{
    if n > 0 {
        lemma_unlisted_none(es, dir, hrefs, n - 1);
        assert(has_name(es, dir + hrefs[n - 1]));
        assert(Seq::<DivergenceView>::empty() + Seq::<DivergenceView>::empty() =~= Seq::<DivergenceView>::empty());
    }
}

/// A well-formed container compared with itself shows no divergence at all:
/// with distinct entry names, every entry holding the size it declares,
/// `mimetype` first and stored, and every file its package manifest lists
/// present, the report is empty.
pub proof fn law_a_sound_container_matches_itself(a: ArchiveView)
    requires
        names_distinct(a.entries),
        sizes_honest(a.entries),
        mimetype_leads(a.entries),
        manifest_resolves(a),
    ensures
        classification(a, a) == Seq::<DivergenceView>::empty(),
{
    let es = a.entries;
    let n = es.len() as int;
    lemma_self_absent(es, n, Class::EntryMissing, missing_suffix());
    lemma_self_absent(es, n, Class::EntryAdded, added_suffix());
    lemma_self_common(es, n);
    lemma_declared_none(es, n);
    assert(manifest_check(a) == Seq::<DivergenceView>::empty()) by {
        match opf_entry(a) {
            Some(opf) => {
                let hrefs = opf_info(opf.data).hrefs;
                lemma_unlisted_none(es, dir_of(opf.name), hrefs, hrefs.len() as int);
            },
            None => {},
        }
    }
    assert(first_check(es) =~= Seq::<DivergenceView>::empty());
    assert(order_check(a, a) =~= Seq::<DivergenceView>::empty());
    assert(comment_check(a, a) =~= Seq::<DivergenceView>::empty());
    assert(raw_divergences(a, a) =~= Seq::<DivergenceView>::empty());
}

/// `b` is `a` holding other bytes of the same length: same name, storage,
/// sizes, timestamp, comment and extra field.
pub open spec fn same_but_bytes(a: EntryView, b: EntryView) -> bool {
    &&& b.name == a.name
    &&& b.method == a.method
    &&& b.compressed_size == a.compressed_size
    &&& b.modified == a.modified
    &&& b.declared_crc == a.declared_crc
    &&& b.declared_size == a.declared_size
    &&& b.comment == a.comment
    &&& b.extra == a.extra
    &&& b.data.len() == a.data.len()
}

/// `b` is `a` with entry bytes replaced by others of the same length.
pub open spec fn rebytes(a: ArchiveView, b: ArchiveView) -> bool {
    &&& a.comment == b.comment
    &&& a.entries.len() == b.entries.len()
    &&& forall|i: int| 0 <= i < a.entries.len() ==> same_but_bytes(#[trigger] a.entries[i], b.entries[i])
}

/// What comparing an entry with its namesake finds in the bytes: nothing
/// where they are equal or there is no namesake, else the class of the
/// difference.
pub open spec fn byte_outcome(a: EntryView, b: Option<EntryView>) -> Option<Class> {
    match b {
        Some(b) => if a.data == b.data { None } else { Some(content(a, b).class) },
        None => None,
    }
}

/// Entry by entry, two comparisons find the same thing in the bytes.
pub open spec fn same_outcomes(s: ArchiveView, r: ArchiveView, s2: ArchiveView, r2: ArchiveView) -> bool {
    forall|i: int| 0 <= i < s.entries.len() ==> byte_outcome(#[trigger] s.entries[i], lookup(r.entries, s.entries[i].name))
        == byte_outcome(s2.entries[i], lookup(r2.entries, s2.entries[i].name))
}

/// The package document is read from the same bytes on both sides: no entry
/// whose bytes changed is the container file, named like a package
/// document, or named as the package document `r` uses.
pub open spec fn package_kept(r: ArchiveView, r2: ArchiveView) -> bool {
    forall|i: int| 0 <= i < r.entries.len() && (#[trigger] r.entries[i]).data != r2.entries[i].data ==> {
        &&& r.entries[i].name != "META-INF/container.xml"@
        &&& !ends_with_ci(r.entries[i].name, ".opf"@)
        &&& (opf_entry(r) matches Some(o) ==> o.name != r.entries[i].name)
    }
}

/// With the same names in the same places, a name is found at the same
/// position on both sides.
proof fn lemma_lookup_alike(es: Seq<EntryView>, es2: Seq<EntryView>, name: Seq<char>) -> (k: int)
    requires
        es.len() == es2.len(),
        forall|i: int| 0 <= i < es.len() ==> (#[trigger] es[i]).name == es2[i].name,
    ensures
        has_name(es, name) == has_name(es2, name),
        lookup(es, name) is Some ==> 0 <= k < es.len() && es[k].name == name && lookup(es, name) == Some(es[k])
            && lookup(es2, name) == Some(es2[k]),
        lookup(es, name) is None ==> lookup(es2, name) is None,
{
    if has_name(es, name) {
        let k = choose|k: int| first_named(es, name, k);
        assert(first_named(es, name, k)) by {
            let w = choose|w: int| 0 <= w < es.len() && (#[trigger] es[w]).name == name;
            lemma_some_first(es, name, w);
        }
        assert(first_named(es2, name, k)) by {
            assert forall|j: int| 0 <= j < k implies (#[trigger] es2[j]).name != name by {
                assert(es[j].name != name);
            }
        }
        crate::archive::lemma_first_named(es, name, k);
        crate::archive::lemma_first_named(es2, name, k);
        k
    } else {
        assert(!has_name(es2, name)) by {
            if has_name(es2, name) {
                let w = choose|w: int| 0 <= w < es2.len() && (#[trigger] es2[w]).name == name;
                assert(es[w].name == name);
            }
        }
        0
    }
}

/// A name that occurs has a first occurrence.
proof fn lemma_some_first(es: Seq<EntryView>, name: Seq<char>, w: int)
    requires
        0 <= w < es.len(),
        es[w].name == name,
    ensures
        exists|k: int| first_named(es, name, k),
    decreases w,
{
    if exists|j: int| 0 <= j < w && (#[trigger] es[j]).name == name {
        let j = choose|j: int| 0 <= j < w && (#[trigger] es[j]).name == name;
        lemma_some_first(es, name, j);
    } else {
        assert(first_named(es, name, w));
    }
}

proof fn lemma_absent_alike(
    s: Seq<EntryView>, r: Seq<EntryView>, s2: Seq<EntryView>, r2: Seq<EntryView>, n: int, class: Class, suffix: Seq<char>,
)
    requires
        s.len() == s2.len(),
        r.len() == r2.len(),
        forall|i: int| 0 <= i < s.len() ==> same_but_bytes(#[trigger] s[i], s2[i]),
        forall|i: int| 0 <= i < r.len() ==> same_but_bytes(#[trigger] r[i], r2[i]),
        n <= s.len(),
    ensures
        absent_upto(s, r, n, class, suffix) == absent_upto(s2, r2, n, class, suffix),
    decreases n,
{
    if n > 0 {
        lemma_absent_alike(s, r, s2, r2, n - 1, class, suffix);
        assert forall|i: int| 0 <= i < r.len() implies (#[trigger] r[i]).name == r2[i].name by {
            assert(same_but_bytes(r[i], r2[i]));
        }
        assert(same_but_bytes(s[n - 1], s2[n - 1]));
        let _ = lemma_lookup_alike(r, r2, s[n - 1].name);
    }
}

proof fn lemma_common_alike(s: ArchiveView, r: ArchiveView, s2: ArchiveView, r2: ArchiveView, n: int)
    requires
        rebytes(s, s2),
        rebytes(r, r2),
        same_outcomes(s, r, s2, r2),
        n <= s.entries.len(),
    ensures
        common_upto(s.entries, r.entries, n) == common_upto(s2.entries, r2.entries, n),
    decreases n,
{
    if n > 0 {
        lemma_common_alike(s, r, s2, r2, n - 1);
        let a = s.entries[n - 1];
        let a2 = s2.entries[n - 1];
        assert(same_but_bytes(a, a2));
        assert forall|i: int| 0 <= i < r.entries.len() implies (#[trigger] r.entries[i]).name == r2.entries[i].name by {
            assert(same_but_bytes(r.entries[i], r2.entries[i]));
        }
        let k = lemma_lookup_alike(r.entries, r2.entries, a.name);
        assert(byte_outcome(a, lookup(r.entries, a.name)) == byte_outcome(a2, lookup(r2.entries, a2.name)));
        if lookup(r.entries, a.name) is Some {
            let b = r.entries[k];
            let b2 = r2.entries[k];
            assert(same_but_bytes(b, b2));
            if a.data == b.data {
                assert(a2.data == b2.data);
                assert(storage(a, b) == storage(a2, b2));
            } else {
                assert(a2.data != b2.data);
                assert(content(a, b).class == content(a2, b2).class);
                assert(content(a, b) == content(a2, b2));
            }
        }
    }
}

proof fn lemma_declared_alike(r: Seq<EntryView>, r2: Seq<EntryView>, n: int)
    requires
        r.len() == r2.len(),
        forall|i: int| 0 <= i < r.len() ==> same_but_bytes(#[trigger] r[i], r2[i]),
        n <= r.len(),
    ensures
        declared_upto(r, n) == declared_upto(r2, n),
    decreases n,
{
    if n > 0 {
        lemma_declared_alike(r, r2, n - 1);
        assert(same_but_bytes(r[n - 1], r2[n - 1]));
    }
}

proof fn lemma_unlisted_alike(es: Seq<EntryView>, es2: Seq<EntryView>, dir: Seq<char>, hrefs: Seq<Seq<char>>, n: int)
    requires
        es.len() == es2.len(),
        forall|i: int| 0 <= i < es.len() ==> (#[trigger] es[i]).name == es2[i].name,
        n <= hrefs.len(),
    ensures
        unlisted_upto(es, dir, hrefs, n) == unlisted_upto(es2, dir, hrefs, n),
    decreases n,
{
    if n > 0 {
        lemma_unlisted_alike(es, es2, dir, hrefs, n - 1);
        let _ = lemma_lookup_alike(es, es2, dir + hrefs[n - 1]);
    }
}

/// Where the package document's bytes are kept, both sides read the same
/// package document.
proof fn lemma_package_alike(r: ArchiveView, r2: ArchiveView)
    requires
        rebytes(r, r2),
        package_kept(r, r2),
    ensures
        opf_entry(r) == opf_entry(r2),
{
    let es = r.entries;
    let es2 = r2.entries;
    assert forall|i: int| 0 <= i < es.len() implies (#[trigger] es[i]).name == es2[i].name by {
        assert(same_but_bytes(es[i], es2[i]));
    }
    // An entry whose bytes are kept is the same entry on both sides.
    assert forall|i: int| 0 <= i < es.len() && (#[trigger] es[i]).data == es2[i].data implies es[i] == es2[i] by {
        assert(same_but_bytes(es[i], es2[i]));
    }
    let c = lemma_lookup_alike(es, es2, "META-INF/container.xml"@);
    let via = match lookup(es, "META-INF/container.xml"@) {
        Some(cf) => match container_path_in(xml_events(cf.data, true)) {
            Some(p) => lookup(es, p),
            None => None,
        },
        None => None,
    };
    if lookup(es, "META-INF/container.xml"@) is Some {
        assert(es[c].name == "META-INF/container.xml"@);
        assert(es[c] == es2[c]);
        if let Some(p) = container_path_in(xml_events(es[c].data, true)) {
            let k = lemma_lookup_alike(es, es2, p);
            if lookup(es, p) is Some {
                assert(es[k].name == p);
                if via is Some && opf_entry(r) == via {
                    assert(es[k].data == es2[k].data) by {
                        if es[k].data != es2[k].data {
                            assert(opf_entry(r) == Some(es[k]));
                        }
                    }
                    assert(es[k] == es2[k]);
                }
            }
        }
    }
    if has_opf(es) {
        let f = choose|i: int| first_opf(es, i);
        assert(first_opf(es, f)) by {
            let w = choose|w: int| 0 <= w < es.len() && ends_with_ci((#[trigger] es[w]).name, ".opf"@);
            lemma_some_first_opf(es, w);
        }
        assert(first_opf(es2, f)) by {
            assert forall|j: int| 0 <= j < f implies !ends_with_ci((#[trigger] es2[j]).name, ".opf"@) by {
                assert(!ends_with_ci(es[j].name, ".opf"@));
            }
        }
        assert(es[f].data == es2[f].data);
        assert(es[f] == es2[f]);
        lemma_first_opf_unique(es2, f);
        assert(has_opf(es2));
    } else {
        assert(!has_opf(es2)) by {
            if has_opf(es2) {
                let w = choose|w: int| 0 <= w < es2.len() && ends_with_ci((#[trigger] es2[w]).name, ".opf"@);
                assert(ends_with_ci(es[w].name, ".opf"@));
            }
        }
    }
}

/// The first package-document position is the one chosen.
proof fn lemma_first_opf_unique(es: Seq<EntryView>, f: int)
    requires
        first_opf(es, f),
    ensures
        opf_fallback(es) == Some(es[f]),
{
    assert(has_opf(es));
    let k = choose|k: int| first_opf(es, k);
    assert(first_opf(es, k));
    if k < f {
        assert(!ends_with_ci(es[k].name, ".opf"@));
    }
    if f < k {
        assert(!ends_with_ci(es[f].name, ".opf"@));
    }
}

/// The report carries no entry content: replacing entry bytes by others of
/// the same length, on either side, leaves the report unchanged wherever
/// each entry compares the same way (equal bytes, or the same class of
/// difference) and the package document keeps its bytes. Details name
/// entries, lengths, methods, sizes and timestamps, never what the entries
/// hold.
pub proof fn law_details_carry_no_entry_content(s: ArchiveView, r: ArchiveView, s2: ArchiveView, r2: ArchiveView)
    requires
        rebytes(s, s2),
        rebytes(r, r2),
        same_outcomes(s, r, s2, r2),
        package_kept(r, r2),
    ensures
        classification(s2, r2) == classification(s, r),
        forall|i: int| 0 <= i < classification(s, r).len() ==> (#[trigger] classification(s2, r2)[i]).entry
            == classification(s, r)[i].entry && classification(s2, r2)[i].detail == classification(s, r)[i].detail,
{
    let n = s.entries.len() as int;
    let m = r.entries.len() as int;
    lemma_absent_alike(s.entries, r.entries, s2.entries, r2.entries, n, Class::EntryMissing, missing_suffix());
    lemma_absent_alike(r.entries, s.entries, r2.entries, s2.entries, m, Class::EntryAdded, added_suffix());
    lemma_common_alike(s, r, s2, r2, n);
    lemma_declared_alike(r.entries, r2.entries, m);
    assert forall|i: int| 0 <= i < r.entries.len() implies (#[trigger] r.entries[i]).name == r2.entries[i].name by {
        assert(same_but_bytes(r.entries[i], r2.entries[i]));
    }
    assert forall|i: int| 0 <= i < s.entries.len() implies (#[trigger] s.entries[i]).name == s2.entries[i].name by {
        assert(same_but_bytes(s.entries[i], s2.entries[i]));
    }
    assert(names_of(s.entries) =~= names_of(s2.entries));
    assert(names_of(r.entries) =~= names_of(r2.entries));
    assert(first_check(r.entries) == first_check(r2.entries)) by {
        if r.entries.len() > 0 {
            assert(same_but_bytes(r.entries[0], r2.entries[0]));
        }
    }
    lemma_package_alike(r, r2);
    assert(manifest_check(r) == manifest_check(r2)) by {
        if let Some(opf) = opf_entry(r) {
            let hrefs = opf_info(opf.data).hrefs;
            lemma_unlisted_alike(r.entries, r2.entries, dir_of(opf.name), hrefs, hrefs.len() as int);
        }
    }
    assert(raw_divergences(s, r) == raw_divergences(s2, r2));
}

/// What the first `m` entries show is kept as the start of what more show.
proof fn lemma_common_prefix(s: Seq<EntryView>, r: Seq<EntryView>, m: int, n: int)
    requires
        0 <= m <= n,
    ensures
        common_upto(s, r, m).len() <= common_upto(s, r, n).len(),
        forall|k: int| 0 <= k < common_upto(s, r, m).len() ==> #[trigger] common_upto(s, r, n)[k] == common_upto(s, r, m)[k],
    decreases n,
{
    if m < n {
        lemma_common_prefix(s, r, m, n - 1);
    }
}

/// A divergence the comparisons find is in the report.
proof fn lemma_found_is_reported(s: ArchiveView, r: ArchiveView, k: int)
    requires
        0 <= k < raw_divergences(s, r).len(),
    ensures
        classification(s, r).contains(raw_divergences(s, r)[k]),
{
    broadcast use vstd::seq_lib::group_to_multiset_ensures;
    let raw = raw_divergences(s, r);
    let c = classification(s, r);
    law_report_is_the_findings_in_order(s, r);
    assert(raw.contains(raw[k]));
    assert(raw.to_multiset().count(raw[k]) > 0);
    assert(c.to_multiset().count(raw[k]) > 0);
    assert(c.contains(raw[k]));
}

/// A namesake with the same bytes and another modification time.
pub open spec fn restamped(a: EntryView, b: Option<EntryView>) -> bool {
    b matches Some(b) && b.data == a.data && b.modified != a.modified
}

/// A `Timestamp` divergence naming `a` and giving both times.
pub open spec fn timestamp_finding(a: EntryView, b: EntryView) -> DivergenceView {
    DivergenceView { class: Class::Timestamp, entry: Some(a.name), detail: debug_opt(a.modified) + " -> "@ + debug_opt(b.modified) }
}

/// A re-stamped entry is reported: where an entry of the source has a
/// namesake in the round-trip with the same bytes but another modification
/// time, the report holds a `Timestamp` divergence naming that entry and
/// giving both times.
pub proof fn law_a_retimed_entry_is_reported(s: ArchiveView, r: ArchiveView, i: int)
    requires
        0 <= i < s.entries.len(),
        restamped(s.entries[i], lookup(r.entries, s.entries[i].name)),
    ensures
        classification(s, r).contains(timestamp_finding(s.entries[i], lookup(r.entries, s.entries[i].name).unwrap())),
{
    let a = s.entries[i];
    let b = lookup(r.entries, a.name).unwrap();
    let want = timestamp_finding(a, b);
    let st = storage(a, b);
    let before = common_upto(s.entries, r.entries, i);
    let upto = common_upto(s.entries, r.entries, i + 1);
    assert(upto == before + st);
    let t = if a.method != b.method {
        1int
    } else if a.compressed_size != b.compressed_size {
        1int
    } else {
        0int
    };
    assert(st[t] == want);
    lemma_common_prefix(s.entries, r.entries, i + 1, s.entries.len() as int);
    let all = common_upto(s.entries, r.entries, s.entries.len() as int);
    let p = before.len() + t;
    assert(all[p] == upto[p]);
    let m1 = absent_upto(s.entries, r.entries, s.entries.len() as int, Class::EntryMissing, missing_suffix());
    let m2 = absent_upto(r.entries, s.entries, r.entries.len() as int, Class::EntryAdded, added_suffix());
    let raw = raw_divergences(s, r);
    let q = m1.len() + m2.len() + p;
    assert(raw[q] == all[p]);
    lemma_found_is_reported(s, r, q);
}

/// Divergences over missing or added entries are of their own class.
proof fn lemma_absent_class(s: Seq<EntryView>, r: Seq<EntryView>, n: int, class: Class, suffix: Seq<char>)
    ensures
        forall|k: int| 0 <= k < absent_upto(s, r, n, class, suffix).len() ==> (#[trigger] absent_upto(s, r, n, class, suffix)[k]).class
            == class,
    decreases n,
{
    if n > 0 {
        lemma_absent_class(s, r, n - 1, class, suffix);
        let a = absent_upto(s, r, n - 1, class, suffix);
        let b = absent_upto(s, r, n, class, suffix);
        assert forall|k: int| 0 <= k < b.len() implies (#[trigger] b[k]).class == class by {
            if k < a.len() {
                assert(b[k] == a[k]);
            }
        }
    }
}

/// A `Timestamp` among what the common entries show names an entry of the
/// source whose namesake has its bytes and another time.
proof fn lemma_common_timestamp(s: Seq<EntryView>, r: Seq<EntryView>, n: int, k: int)
    requires
        0 <= n <= s.len(),
        0 <= k < common_upto(s, r, n).len(),
        common_upto(s, r, n)[k].class == Class::Timestamp,
    ensures
        exists|i: int| 0 <= i < n && common_upto(s, r, n)[k].entry == Some((#[trigger] s[i]).name) && restamped(
            s[i],
            lookup(r, s[i].name),
        ),
    decreases n,
{
    let prev = common_upto(s, r, n - 1);
    let cur = common_upto(s, r, n);
    if k < prev.len() {
        assert(cur[k] == prev[k]);
        lemma_common_timestamp(s, r, n - 1, k);
        let i = choose|i: int| 0 <= i < n - 1 && prev[k].entry == Some((#[trigger] s[i]).name) && restamped(
            s[i],
            lookup(r, s[i].name),
        );
        assert(cur[k].entry == Some(s[i].name));
    } else {
        let a = s[n - 1];
        let b = lookup(r, a.name).unwrap();
        assert(lookup(r, a.name) is Some);
        let x = cur[k];
        if a.data == b.data {
            let st = storage(a, b);
            assert(x == st[k - prev.len()]);
            assert(a.modified != b.modified);
        } else {
            assert(x == content(a, b));
        }
        assert(x.entry == Some(s[n - 1].name));
    }
}

/// A `Timestamp` divergence is reported only for an entry of the source
/// whose namesake in the round-trip has the same bytes and another
/// modification time, and it names that entry.
pub proof fn law_a_timestamp_names_a_retimed_entry(s: ArchiveView, r: ArchiveView, d: DivergenceView)
    requires
        classification(s, r).contains(d),
        d.class == Class::Timestamp,
    ensures
        exists|i: int| 0 <= i < s.entries.len() && d.entry == Some((#[trigger] s.entries[i]).name) && restamped(
            s.entries[i],
            lookup(r.entries, s.entries[i].name),
        ),
{
    broadcast use vstd::seq_lib::group_to_multiset_ensures;
    let raw = raw_divergences(s, r);
    law_report_is_the_findings_in_order(s, r);
    let c = classification(s, r);
    assert(c.to_multiset().count(d) > 0);
    assert(raw.to_multiset().count(d) > 0);
    assert(raw.contains(d));
    let q = choose|q: int| 0 <= q < raw.len() && raw[q] == d;
    let es = s.entries;
    let rs = r.entries;
    let n = es.len() as int;
    let m1 = absent_upto(es, rs, n, Class::EntryMissing, missing_suffix());
    let m2 = absent_upto(rs, es, rs.len() as int, Class::EntryAdded, added_suffix());
    let cm = common_upto(es, rs, n);
    let o = order_check(s, r);
    let cc = comment_check(s, r);
    let f = first_check(rs);
    let dd = declared_upto(rs, rs.len() as int);
    let mm = manifest_check(r);
    assert(raw == m1 + m2 + cm + o + cc + f + dd + mm);
    lemma_absent_class(es, rs, n, Class::EntryMissing, missing_suffix());
    lemma_absent_class(rs, es, rs.len() as int, Class::EntryAdded, added_suffix());
    lemma_declared_structural(rs, rs.len() as int);
    assert(all_structural(mm)) by {
        match opf_entry(r) {
            Some(opf) => {
                let hrefs = opf_info(opf.data).hrefs;
                lemma_unlisted_structural(rs, dir_of(opf.name), hrefs, hrefs.len() as int);
            },
            None => {},
        }
    }
    let b1 = m1.len() as int;
    let b2 = b1 + m2.len();
    let b3 = b2 + cm.len();
    let b4 = b3 + o.len();
    let b5 = b4 + cc.len();
    let b6 = b5 + f.len();
    let b7 = b6 + dd.len();
    if q < b1 {
        assert(raw[q] == m1[q]);
    } else if q < b2 {
        assert(raw[q] == m2[q - b1]);
    } else if q < b3 {
        assert(raw[q] == cm[q - b2]);
        lemma_common_timestamp(es, rs, n, q - b2);
    } else if q < b4 {
        assert(raw[q] == o[q - b3]);
    } else if q < b5 {
        assert(raw[q] == cc[q - b4]);
    } else if q < b6 {
        assert(raw[q] == f[q - b5]);
    } else if q < b7 {
        assert(raw[q] == dd[q - b6]);
        assert(group_of(dd[q - b6].class) == Group::DeclaredActual);
    } else {
        assert(raw[q] == mm[q - b7]);
        assert(group_of(mm[q - b7].class) == Group::DeclaredActual);
    }
}

/// Normalising line endings leaves no carriage return.
pub proof fn law_normalised_eol_has_no_cr(d: Seq<u8>)
    ensures
        forall|i: int| 0 <= i < normalised_eol(d).len() ==> normalised_eol(d)[i] != 13,
    decreases d.len(),
{
    if d.len() > 0 {
        if d[0] == 13 && d.len() > 1 && d[1] == 10 {
            law_normalised_eol_has_no_cr(d.subrange(2, d.len() as int));
        } else {
            law_normalised_eol_has_no_cr(d.drop_first());
        }
        let n = normalised_eol(d);
        assert forall|i: int| 0 <= i < n.len() implies n[i] != 13 by {
            if i > 0 {
                if d[0] == 13 && d.len() > 1 && d[1] == 10 {
                    assert(n[i] == normalised_eol(d.subrange(2, d.len() as int))[i - 1]);
                } else {
                    assert(n[i] == normalised_eol(d.drop_first())[i - 1]);
                }
            }
        }
    }
}

/// Whether a pair compared losslessly: no divergence found bears on
/// losslessness, so whatever differs is container metadata.
pub fn preserves_content(found: &Vec<Divergence>) -> (b: bool)
    ensures
        b == forall|i: int| 0 <= i < found@.len() ==> !bears((#[trigger] found@[i]).class),
{
    let mut i: usize = 0;
    while i < found.len()
        invariant
            i <= found@.len(),
            forall|j: int| 0 <= j < i ==> !bears((#[trigger] found@[j]).class),
        decreases found@.len() - i,
    {
        if found[i].class.bears_on_losslessness() {
            return false;
        }
        i = i + 1;
    }
    true
}

/// Where a divergence sits, for a report: its entry, or the archive.
pub open spec fn place(entry: Option<Seq<char>>) -> Seq<char> {
    match entry {
        Some(e) => e,
        None => "(archive)"@,
    }
}

/// The report line of one divergence: class, place and detail in columns.
pub open spec fn comparison_line(d: DivergenceView) -> Seq<char> {
    crate::text::padded(crate::taxonomy::slug_of(d.class), 24) + " "@ + crate::text::padded(place(d.entry), 40) + " "@
        + d.detail + "\n"@
}

/// The lines of the first `k` divergences.
pub open spec fn comparison_lines(ds: Seq<DivergenceView>, k: int) -> Seq<char>
    decreases k,
{
    if k <= 0 { Seq::empty() } else { comparison_lines(ds, k - 1) + comparison_line(ds[k - 1]) }
}

/// What comparing two containers reports: that they are identical, or each
/// divergence and whether the content survived.
pub open spec fn comparison_text(ds: Seq<DivergenceView>) -> Seq<char> {
    if ds.len() == 0 {
        "identical: every entry byte-for-byte, same order, same storage\n"@
    } else {
        comparison_lines(ds, ds.len() as int) + "\nADR-F012 lossless: "@ + crate::text::bool_text(
            forall|i: int| 0 <= i < ds.len() ==> !bears((#[trigger] ds[i]).class),
        ) + "\n"@
    }
}

/// Report a comparison of two containers.
pub fn comparison_report(found: &Vec<Divergence>) -> (s: String)
    ensures
        s@ == comparison_text(div_views(found@)),
{
    if found.len() == 0 {
        return "identical: every entry byte-for-byte, same order, same storage\n".to_owned();
    }
    let ghost dv = div_views(found@);
    let mut s = String::new();
    let mut i: usize = 0;
    assert(s@ =~= comparison_lines(dv, 0));
    while i < found.len()
        invariant
            dv == div_views(found@),
            i <= found@.len(),
            s@ == comparison_lines(dv, i as int),
        decreases found@.len() - i,
    {
        let d = &found[i];
        assert(dv[i as int] == d@);
        let ghost before = s@;
        crate::text::push_padded(&mut s, d.class.slug(), 24);
        s.append(" ");
        match &d.entry {
            Some(e) => crate::text::push_padded(&mut s, e.as_str(), 40),
            None => crate::text::push_padded(&mut s, "(archive)", 40),
        }
        s.append(" ");
        s.append(d.detail.as_str());
        s.append("\n");
        i = i + 1;
        assert(s@ =~= comparison_lines(dv, i as int));
    }
    let kept = preserves_content(found);
    proof {
        if kept {
            assert forall|i: int| 0 <= i < dv.len() implies !bears((#[trigger] dv[i]).class) by {
                assert(dv[i] == found@[i]@);
                assert(!bears(found@[i].class));
            }
        } else {
            let w = choose|w: int| 0 <= w < found@.len() && bears((#[trigger] found@[w]).class);
            assert(dv[w] == found@[w]@);
        }
    }
    s.append("\nADR-F012 lossless: ");
    s.append(if kept { "true" } else { "false" });
    s.append("\n");
    s
}

} // verus!
