//! Normalization detection: was this file rewritten by a library manager?
//!
//! The producer string is self-reported and gets overwritten, so
//! normalization is detected on evidence *other than* the producer string and
//! reported as a separate axis. Detection is deliberately over-eager: a false
//! positive costs one file's place in the diversity count, while a false
//! negative silently inflates that count.

use vstd::prelude::*;
use vstd::string::StringSliceAdditionalSpecFns;
use crate::archive::{Archive, ArchiveView, EntryView, has_name};
use crate::detect::{first_opf, has_opf, opf_data};
use crate::scan::{ascii_bytes, lit_bytes};
use crate::text::{occurs_at_ci, occurs_at_ci_exec, contains_ci, contains_ci_exec, lossy_text,
    utf8_lossy, concat_bytes, ends_with_ci, ends_with_ci_exec, chars_of};

verus! {

/// One piece of evidence that a file has been rewritten by a manager.
#[derive(Debug, Clone)]
pub enum Signal {
    /// `<meta name="calibre:*">` in the OPF.
    CalibreMeta,
    /// `META-INF/calibre_bookmarks.txt` inside the container.
    CalibreBookmarks,
    /// `<meta name="Sigil version">`.
    SigilMeta,
    /// A contributor or generator field naming a known management or editing
    /// tool.
    ContributorTool(String),
    /// A sibling `metadata.opf`: the file lives in a managed library.
    SidecarMetadataOpf,
    /// A sibling `cover.jpg` alongside a managed-library layout.
    SidecarCover,
}

/// The mathematical content of a signal.
pub enum SignalView {
    CalibreMeta,
    CalibreBookmarks,
    SigilMeta,
    ContributorTool(Seq<char>),
    SidecarMetadataOpf,
    SidecarCover,
}

impl View for Signal {
    type V = SignalView;

    open spec fn view(&self) -> SignalView {
        match self {
            Signal::CalibreMeta => SignalView::CalibreMeta,
            Signal::CalibreBookmarks => SignalView::CalibreBookmarks,
            Signal::SigilMeta => SignalView::SigilMeta,
            Signal::ContributorTool(t) => SignalView::ContributorTool(t@),
            Signal::SidecarMetadataOpf => SignalView::SidecarMetadataOpf,
            Signal::SidecarCover => SignalView::SidecarCover,
        }
    }
}

/// The stable label of a signal.
pub open spec fn label_of(s: SignalView) -> Seq<char> {
    match s {
        SignalView::CalibreMeta => "calibre-meta"@,
        SignalView::CalibreBookmarks => "calibre-bookmarks"@,
        SignalView::SigilMeta => "sigil-meta"@,
        SignalView::ContributorTool(t) => "contributor:"@ + t,
        SignalView::SidecarMetadataOpf => "sidecar-metadata-opf"@,
        SignalView::SidecarCover => "sidecar-cover"@,
    }
}

impl Signal {
    /// Stable label for the manifest and the report.
    pub fn label(&self) -> (r: String)
        ensures
            r@ == label_of(self@),
    {
        match self {
            Signal::CalibreMeta => "calibre-meta".to_owned(),
            Signal::CalibreBookmarks => "calibre-bookmarks".to_owned(),
            Signal::SigilMeta => "sigil-meta".to_owned(),
            Signal::ContributorTool(t) => {
                let mut r = "contributor:".to_owned();
                r.append(t.as_str());
                r
            },
            Signal::SidecarMetadataOpf => "sidecar-metadata-opf".to_owned(),
            Signal::SidecarCover => "sidecar-cover".to_owned(),
        }
    }
}

/// What the file's surroundings on disk show: a sibling `metadata.opf`, and
/// a sibling `cover.jpg` or `cover.jpeg`.
#[derive(Debug, Clone, Copy)]
pub struct Sidecars {
    /// A `metadata.opf` sits in the same directory.
    pub metadata_opf: bool,
    /// A `cover.jpg` or `cover.jpeg` sits in the same directory.
    pub cover: bool,
}

/// What normalization evidence a file carries.
#[derive(Debug, Clone)]
pub struct Normalization {
    /// Every signal found, in sorted order, each once. Empty means the file
    /// looks untouched by a manager.
    pub signals: Vec<Signal>,
}

/// The views of a vector of signals.
pub open spec fn signal_views(s: Seq<Signal>) -> Seq<SignalView> {
    Seq::new(s.len(), |i: int| s[i]@)
}

/// The labels of a sequence of signals.
pub open spec fn signal_labels(s: Seq<SignalView>) -> Seq<Seq<char>> {
    Seq::new(s.len(), |i: int| label_of(s[i]))
}

impl Normalization {
    /// Whether any evidence of rewriting was found.
    pub fn is_normalized(&self) -> (r: bool)
        ensures
            r == (self.signals@.len() > 0),
    {
        self.signals.len() > 0
    }

    /// Labels, for the manifest.
    pub fn labels(&self) -> (r: Vec<String>)
        ensures
            r@.len() == self.signals@.len(),
            forall|i: int| 0 <= i < r@.len() ==> (#[trigger] r@[i])@ == label_of(self.signals@[i]@),
    {
        let mut r: Vec<String> = Vec::new();
        let mut i: usize = 0;
        while i < self.signals.len()
            invariant
                i <= self.signals@.len(),
                r@.len() == i,
                forall|k: int| 0 <= k < i ==> (#[trigger] r@[k])@ == label_of(self.signals@[k]@),
            decreases self.signals@.len() - i,
        {
            r.push(self.signals[i].label());
            i = i + 1;
        }
        r
    }
}

// ---------------------------------------------------------------------------
// The OPF scan
// ---------------------------------------------------------------------------

/// The OPF as the scan reads it: the bytes of its lossy text.
pub open spec fn opf_text(d: Seq<u8>) -> Seq<u8> {
    vstd::utf8::encode_utf8(lossy_text(d))
}

/// Some `name=` or `property=` attribute value, in either quote style,
/// starts with `prefix` (lowercase), ignoring ASCII case. Anchored to the
/// attribute position, so a book *titled* "Mastering calibre: a guide" is
/// not flagged.
pub open spec fn meta_name_starts_with(t: Seq<u8>, prefix: Seq<u8>) -> bool {
    contains_ci(t, ascii_bytes("name=\""@) + prefix) || contains_ci(t, ascii_bytes("name='"@) + prefix)
        || contains_ci(t, ascii_bytes("property=\""@) + prefix) || contains_ci(
        t,
        ascii_bytes("property='"@) + prefix,
    )
}

/// The 400 bytes from `start` (fewer at the end of the text) form whole
/// characters and mention `tool`, ignoring ASCII case.
pub open spec fn window_mentions(t: Seq<u8>, start: int, tool: Seq<u8>) -> bool {
    let end = if start + 400 <= t.len() { start + 400 } else { t.len() as int };
    vstd::utf8::is_char_boundary(t, end) && contains_ci(t.subrange(start, end), tool)
}

/// `tool` appears within 400 bytes after some mention of `field`. Crude on
/// purpose: evidence-gathering, not parsing.
pub open spec fn field_mentions(t: Seq<u8>, field: Seq<u8>, tool: Seq<u8>) -> bool {
    exists|start: int| occurs_at_ci(t, field, start) && window_mentions(t, start, tool)
}

/// Tools whose presence in a contributor or generator field means a manager
/// or editor rewrote the file, in the order their signals sort.
pub open spec fn manager_tool(k: int) -> Seq<char> {
    if k == 0 { "calibre"@ }
    else if k == 1 { "ebook-convert"@ }
    else if k == 2 { "epubcheck"@ }
    else if k == 3 { "pandoc"@ }
    else { "sigil"@ }
}

fn manager_tool_exec(k: usize) -> (r: &'static str)
    requires
        k < 5,
    ensures
        r@ == manager_tool(k as int),
        r.is_ascii(),
{
    proof {
        reveal_strlit("calibre");
        reveal_strlit("ebook-convert");
        reveal_strlit("epubcheck");
        reveal_strlit("pandoc");
        reveal_strlit("sigil");
    }
    if k == 0 { "calibre" }
    else if k == 1 { "ebook-convert" }
    else if k == 2 { "epubcheck" }
    else if k == 3 { "pandoc" }
    else { "sigil" }
}

/// A tool is named in a contributor or generator field.
pub open spec fn tool_named(t: Seq<u8>, tool: Seq<char>) -> bool {
    field_mentions(t, ascii_bytes("contributor"@), ascii_bytes(tool)) || field_mentions(
        t,
        ascii_bytes("generator"@),
        ascii_bytes(tool),
    )
}

/// Contributor-tool signals for the first `k` manager tools, in order.
pub open spec fn tools_named(t: Seq<u8>, opf: bool, k: int) -> Seq<SignalView>
    decreases k,
{
    if k <= 0 {
        Seq::empty()
    } else if opf && tool_named(t, manager_tool(k - 1)) {
        tools_named(t, opf, k - 1).push(SignalView::ContributorTool(manager_tool(k - 1)))
    } else {
        tools_named(t, opf, k - 1)
    }
}

/// The signals found, in sorted order, each once.
pub open spec fn expected_signals(a: ArchiveView, sidecar: Option<Sidecars>) -> Seq<SignalView> {
    let es = a.entries;
    let t = if has_opf(es) { opf_text(opf_data(es)) } else { Seq::empty() };
    let opf = has_opf(es);
    let calibre_meta = opf && meta_name_starts_with(t, ascii_bytes("calibre:"@));
    let sigil_meta = opf && meta_name_starts_with(t, ascii_bytes("sigil version"@));
    let bookmarks = has_name(es, "META-INF/calibre_bookmarks.txt"@);
    (if calibre_meta { seq![SignalView::CalibreMeta] } else { Seq::empty() })
        + (if bookmarks { seq![SignalView::CalibreBookmarks] } else { Seq::empty() })
        + (if sigil_meta { seq![SignalView::SigilMeta] } else { Seq::empty() })
        + tools_named(t, opf, 5)
        + (match sidecar {
            Some(s) => (if s.metadata_opf { seq![SignalView::SidecarMetadataOpf] } else { Seq::empty() })
                + (if s.cover { seq![SignalView::SidecarCover] } else { Seq::empty() }),
            None => Seq::empty(),
        })
}

fn meta_name_starts_with_exec(t: &[u8], prefix: &[u8]) -> (r: bool)
    ensures
        r == meta_name_starts_with(t@, prefix@),
{
    proof {
        reveal_strlit("name=\"");
        reveal_strlit("name='");
        reveal_strlit("property=\"");
        reveal_strlit("property='");
    }
    contains_ci_exec(t, concat_bytes(lit_bytes("name=\"").as_slice(), prefix).as_slice())
        || contains_ci_exec(t, concat_bytes(lit_bytes("name='").as_slice(), prefix).as_slice())
        || contains_ci_exec(t, concat_bytes(lit_bytes("property=\"").as_slice(), prefix).as_slice())
        || contains_ci_exec(t, concat_bytes(lit_bytes("property='").as_slice(), prefix).as_slice())
}

fn field_mentions_exec(text: &str, field: &[u8], tool: &[u8]) -> (r: bool)
    requires
        field@.len() > 0,
    ensures
        r == field_mentions(text.spec_bytes(), field@, tool@),
{
    let t = text.as_bytes();
    let mut start: usize = 0;
    while start < t.len()
        invariant
            t@ == text.spec_bytes(),
            start <= t@.len(),
            forall|s: int| 0 <= s < start ==> !(occurs_at_ci(t@, field@, s) && window_mentions(t@, s, tool@)),
        decreases t@.len() - start,
    {
        if occurs_at_ci_exec(t, field, start) {
            let end = if t.len() - start >= 400 { start + 400 } else { t.len() };
            if text.is_char_boundary(end) && contains_ci_exec(
                vstd::slice::slice_subrange(t, start, end),
                tool,
            ) {
                return true;
            }
        }
        start = start + 1;
    }
    false
}

/// Inspect a container, and what its surroundings showed, for normalization
/// evidence. The OPF is text-scanned rather than parsed: a manager that
/// writes a malformed OPF is still a manager.
pub fn detect(archive: &Archive, sidecar: Option<Sidecars>) -> (r: Normalization)
    ensures
        signal_views(r.signals@) == expected_signals(archive@, sidecar),
{
    let es = &archive.entries;
    let ghost ev = archive@.entries;
    // The package document: the first entry named like one.
    let mut opf: Option<usize> = None;
    let mut j: usize = 0;
    while j < es.len()
        invariant
            ev == archive@.entries,
            es@ == archive.entries@,
            ev.len() == es@.len(),
            j <= es@.len(),
            opf is None ==> forall|m: int| 0 <= m < j ==> !ends_with_ci((#[trigger] ev[m]).name, ".opf"@),
            opf matches Some(o) ==> first_opf(ev, o as int),
        decreases es@.len() - j,
    {
        assert(es@[j as int]@ == ev[j as int]);
        if opf.is_none() && ends_with_ci_exec(&chars_of(es[j].name.as_str()), ".opf") {
            opf = Some(j);
        }
        j = j + 1;
    }
    let text = match opf {
        Some(o) => {
            proof {
                assert(has_opf(ev));
                let c = choose|c: int| first_opf(ev, c);
                if c < o { assert(!ends_with_ci(ev[c].name, ".opf"@)); }
                if o < c { assert(!ends_with_ci(ev[o as int].name, ".opf"@)); }
                assert(es@[o as int]@ == ev[o as int]);
            }
            utf8_lossy(es[o].data.as_slice())
        },
        None => String::new(),
    };
    let ghost t = if has_opf(ev) { opf_text(opf_data(ev)) } else { Seq::<u8>::empty() };
    proof {
        if opf is None {
            assert(!has_opf(ev));
        }
    }
    let found = opf.is_some();
    let tb = text.as_str().as_bytes();
    assert(found ==> tb@ == t);
    proof {
        reveal_strlit("calibre:");
        reveal_strlit("sigil version");
        reveal_strlit("contributor");
        reveal_strlit("generator");
    }
    let calibre_meta = found && meta_name_starts_with_exec(tb, lit_bytes("calibre:").as_slice());
    let sigil_meta = found && meta_name_starts_with_exec(tb, lit_bytes("sigil version").as_slice());
    let bookmarks = archive.get("META-INF/calibre_bookmarks.txt").is_some();

    let mut signals: Vec<Signal> = Vec::new();
    if calibre_meta {
        signals.push(Signal::CalibreMeta);
    }
    if bookmarks {
        signals.push(Signal::CalibreBookmarks);
    }
    if sigil_meta {
        signals.push(Signal::SigilMeta);
    }
    let ghost head = signal_views(signals@);
    let contributor = lit_bytes("contributor");
    let generator = lit_bytes("generator");
    let mut k: usize = 0;
    while k < 5
        invariant
            k <= 5,
            contributor@ == ascii_bytes("contributor"@),
            generator@ == ascii_bytes("generator"@),
            contributor@.len() > 0,
            generator@.len() > 0,
            found ==> tb@ == t,
            tb@ == vstd::utf8::encode_utf8(text@),
            signal_views(signals@) == head + tools_named(t, found, k as int),
        decreases 5 - k,
    {
        let tool = manager_tool_exec(k);
        let tb_tool = lit_bytes(tool);
        let hit = found && (field_mentions_exec(text.as_str(), contributor.as_slice(), tb_tool.as_slice())
            || field_mentions_exec(text.as_str(), generator.as_slice(), tb_tool.as_slice()));
        let ghost prev = signals@;
        if hit {
            signals.push(Signal::ContributorTool(tool.to_owned()));
        }
        proof {
            if hit {
                assert(signal_views(signals@) =~= signal_views(prev).push(SignalView::ContributorTool(tool@)));
                assert(head + tools_named(t, found, k + 1) =~= (head + tools_named(t, found, k as int)).push(SignalView::ContributorTool(tool@)));
            } else {
                assert(signal_views(signals@) =~= signal_views(prev));
            }
        }
        k = k + 1;
    }
    let ghost mid = signal_views(signals@);
    assert(mid == head + tools_named(t, found, 5));
    assert(found == has_opf(ev));
    match sidecar {
        Some(s) => {
            if s.metadata_opf {
                signals.push(Signal::SidecarMetadataOpf);
            }
            if s.cover {
                signals.push(Signal::SidecarCover);
            }
        },
        None => {},
    }
    proof {
        let side = match sidecar {
            Some(s) => (if s.metadata_opf { seq![SignalView::SidecarMetadataOpf] } else { Seq::empty() })
                + (if s.cover { seq![SignalView::SidecarCover] } else { Seq::empty() }),
            None => Seq::empty(),
        };
        assert(signal_views(signals@) =~= mid + side);
        assert(head =~= (if calibre_meta { seq![SignalView::CalibreMeta] } else { Seq::empty() })
            + (if bookmarks { seq![SignalView::CalibreBookmarks] } else { Seq::empty() })
            + (if sigil_meta { seq![SignalView::SigilMeta] } else { Seq::empty() }));
        assert(signal_views(signals@) =~= expected_signals(archive@, sidecar));
    }
    Normalization { signals }
}

/// A tool named at step `k` stays among the signals of every later step.
proof fn lemma_tools_named_keeps(t: Seq<u8>, k: int, n: int)
    requires
        0 <= k < n,
        tool_named(t, manager_tool(k)),
    ensures
        tools_named(t, true, n).contains(SignalView::ContributorTool(manager_tool(k))),
    decreases n,
{
    let x = SignalView::ContributorTool(manager_tool(k));
    if n - 1 == k {
        assert(tools_named(t, true, n).last() == x);
    } else {
        lemma_tools_named_keeps(t, k, n - 1);
        let prev = tools_named(t, true, n - 1);
        let w = choose|w: int| 0 <= w < prev.len() && prev[w] == x;
        if tool_named(t, manager_tool(n - 1)) {
            assert(tools_named(t, true, n)[w] == x);
        }
    }
}

/// A manager named in the package document is evidence of normalization:
/// where a manager tool appears within the window after a `generator` field
/// of the package document, or after a `contributor` field, the file's
/// signals include that tool as contributor, whatever the sidecars show.
pub proof fn law_a_named_manager_is_a_signal(a: ArchiveView, sidecar: Option<Sidecars>, k: int)
    requires
        has_opf(a.entries),
        0 <= k < 5,
        field_mentions(opf_text(opf_data(a.entries)), ascii_bytes("generator"@), ascii_bytes(manager_tool(k)))
            || field_mentions(opf_text(opf_data(a.entries)), ascii_bytes("contributor"@), ascii_bytes(manager_tool(k))),
    ensures
        expected_signals(a, sidecar).contains(SignalView::ContributorTool(manager_tool(k))),
        expected_signals(a, sidecar).len() > 0,
{
    let es = a.entries;
    let t = opf_text(opf_data(es));
    let x = SignalView::ContributorTool(manager_tool(k));
    lemma_tools_named_keeps(t, k, 5);
    let tn = tools_named(t, true, 5);
    let w = choose|w: int| 0 <= w < tn.len() && tn[w] == x;
    let calibre_meta = meta_name_starts_with(t, ascii_bytes("calibre:"@));
    let sigil_meta = meta_name_starts_with(t, ascii_bytes("sigil version"@));
    let bookmarks = has_name(es, "META-INF/calibre_bookmarks.txt"@);
    let head = (if calibre_meta { seq![SignalView::CalibreMeta] } else { Seq::empty() })
        + (if bookmarks { seq![SignalView::CalibreBookmarks] } else { Seq::empty() })
        + (if sigil_meta { seq![SignalView::SigilMeta] } else { Seq::empty() });
    let all = expected_signals(a, sidecar);
    assert(all[head.len() + w] == x);
}

/// Every contributor-tool signal among the first `n` steps names a manager
/// tool mentioned in a contributor or generator field.
proof fn lemma_tools_named_origin(t: Seq<u8>, opf: bool, n: int, j: int)
    requires
        0 <= j < tools_named(t, opf, n).len(),
    ensures
        exists|k: int| 0 <= k < n && tools_named(t, opf, n)[j] == SignalView::ContributorTool(#[trigger] manager_tool(k))
            && opf && tool_named(t, manager_tool(k)),
    decreases n,
{
    let prev = tools_named(t, opf, n - 1);
    if opf && tool_named(t, manager_tool(n - 1)) && j == prev.len() {
        assert(tools_named(t, opf, n)[j] == SignalView::ContributorTool(manager_tool(n - 1)));
    } else {
        assert(tools_named(t, opf, n)[j] == prev[j]);
        lemma_tools_named_origin(t, opf, n - 1, j);
        let k = choose|k: int| 0 <= k < n - 1 && prev[j] == SignalView::ContributorTool(#[trigger] manager_tool(k)) && opf
            && tool_named(t, manager_tool(k));
        assert(tools_named(t, opf, n)[j] == SignalView::ContributorTool(manager_tool(k)));
    }
}

/// A contributor-tool signal comes only from the package document: it names
/// a manager tool that appears within the window after a `contributor` or
/// `generator` field there.
pub proof fn law_a_tool_signal_needs_a_named_manager(a: ArchiveView, sidecar: Option<Sidecars>, tool: Seq<char>)
    requires
        expected_signals(a, sidecar).contains(SignalView::ContributorTool(tool)),
    ensures
        has_opf(a.entries),
        exists|k: int| 0 <= k < 5 && tool == #[trigger] manager_tool(k) && (field_mentions(
            opf_text(opf_data(a.entries)),
            ascii_bytes("contributor"@),
            ascii_bytes(tool),
        ) || field_mentions(opf_text(opf_data(a.entries)), ascii_bytes("generator"@), ascii_bytes(tool))),
{
    let es = a.entries;
    let opf = has_opf(es);
    let t = if opf { opf_text(opf_data(es)) } else { Seq::empty() };
    let calibre_meta = opf && meta_name_starts_with(t, ascii_bytes("calibre:"@));
    let sigil_meta = opf && meta_name_starts_with(t, ascii_bytes("sigil version"@));
    let bookmarks = has_name(es, "META-INF/calibre_bookmarks.txt"@);
    let h1: Seq<SignalView> = if calibre_meta { seq![SignalView::CalibreMeta] } else { Seq::empty() };
    let h2: Seq<SignalView> = if bookmarks { seq![SignalView::CalibreBookmarks] } else { Seq::empty() };
    let h3: Seq<SignalView> = if sigil_meta { seq![SignalView::SigilMeta] } else { Seq::empty() };
    let tn = tools_named(t, opf, 5);
    let tail: Seq<SignalView> = match sidecar {
        Some(s) => (if s.metadata_opf { seq![SignalView::SidecarMetadataOpf] } else { Seq::empty() })
            + (if s.cover { seq![SignalView::SidecarCover] } else { Seq::empty() }),
        None => Seq::empty(),
    };
    let all = expected_signals(a, sidecar);
    assert(all == h1 + h2 + h3 + tn + tail);
    let x = SignalView::ContributorTool(tool);
    let q = choose|q: int| 0 <= q < all.len() && all[q] == x;
    let b = h1.len() + h2.len() + h3.len();
    if q < h1.len() {
        assert(all[q] == h1[q]);
    } else if q < h1.len() + h2.len() {
        assert(all[q] == h2[q - h1.len()]);
    } else if q < b {
        assert(all[q] == h3[q - h1.len() - h2.len()]);
    } else if q < b + tn.len() {
        assert(all[q] == tn[q - b]);
        lemma_tools_named_origin(t, opf, 5, q - b);
    } else {
        assert(all[q] == tail[q - b - tn.len()]);
    }
}

} // verus!
