//! The frozen divergence taxonomy.
//!
//! Three top-level groups:
//!
//! - **A — entry content.** A save that changes any byte of any archive entry
//!   has broken the lossless promise.
//! - **B — container metadata.** Reported, never fatal.
//! - **C — declared versus actual.** Structural claims the package makes about
//!   itself that the bytes contradict.

use vstd::prelude::*;

verus! {

/// Bumped whenever a class is added or its boundary changes.
pub const CLASSIFIER_VERSION: &'static str = "1.0.0";

/// The date the taxonomy was frozen, for the record.
pub const TAXONOMY_FROZEN: &'static str = "2026-07-27";

/// Which group a class belongs to.
#[derive(Debug, Clone, Copy, PartialEq, Eq, Structural)]
pub enum Group {
    /// Entry content. Bears on losslessness.
    EntryContent,
    /// Archive container metadata. Reported, not fatal.
    ContainerMetadata,
    /// Declared-versus-actual structural mismatch.
    DeclaredActual,
    /// Observed, named by no existing class.
    Unclassified,
}

/// A single named divergence class. The declaration order is the order in
/// which classified divergences are reported.
#[derive(Debug, Clone, Copy, PartialEq, Eq, Structural, Hash, PartialOrd, Ord)]
pub enum Class {
    /// Entry bytes differ in a way no narrower class explains.
    ContentByteDiff,
    /// Present in the source, absent from the round-trip.
    EntryMissing,
    /// Present in the round-trip, absent from the source.
    EntryAdded,
    /// Bytes differ but the XML infoset does not.
    XmlCanonicalization,
    /// Differs only by a byte-order mark.
    TextEncoding,
    /// Differs only by CRLF versus LF.
    LineEndings,
    /// Same entries, different order in the central directory.
    EntryOrder,
    /// Entry modification timestamps differ.
    Timestamp,
    /// Stored versus deflated, with identical uncompressed bytes.
    CompressionMethod,
    /// Same method and same uncompressed bytes, different compressed size.
    CompressionLevel,
    /// Zip extra fields differ.
    ExtraField,
    /// Archive or entry comment differs.
    Comment,
    /// OCF requires `mimetype` to be the first entry.
    MimetypeNotFirst,
    /// OCF requires `mimetype` to be stored uncompressed.
    MimetypeCompressed,
    /// A header's declared size contradicts the entry's bytes.
    DeclaredSizeMismatch,
    /// The OPF manifest and the container disagree about what exists.
    ManifestMismatch,
    /// Something real was observed that no class above names.
    Unclassified,
}

/// The group of a class.
pub open spec fn group_of(c: Class) -> Group {
    match c {
        Class::ContentByteDiff | Class::EntryMissing | Class::EntryAdded
        | Class::XmlCanonicalization | Class::TextEncoding | Class::LineEndings => Group::EntryContent,
        Class::EntryOrder | Class::Timestamp | Class::CompressionMethod | Class::CompressionLevel
        | Class::ExtraField | Class::Comment => Group::ContainerMetadata,
        Class::MimetypeNotFirst | Class::MimetypeCompressed | Class::DeclaredSizeMismatch
        | Class::ManifestMismatch => Group::DeclaredActual,
        Class::Unclassified => Group::Unclassified,
    }
}

/// Whether a class counts against losslessness: entry content and
/// unclassified observations do, nothing else does.
pub open spec fn bears(c: Class) -> bool {
    group_of(c) == Group::EntryContent || group_of(c) == Group::Unclassified
}

/// Position of a class in the declaration order.
pub open spec fn class_rank(c: Class) -> int {
    match c {
        Class::ContentByteDiff => 0,
        Class::EntryMissing => 1,
        Class::EntryAdded => 2,
        Class::XmlCanonicalization => 3,
        Class::TextEncoding => 4,
        Class::LineEndings => 5,
        Class::EntryOrder => 6,
        Class::Timestamp => 7,
        Class::CompressionMethod => 8,
        Class::CompressionLevel => 9,
        Class::ExtraField => 10,
        Class::Comment => 11,
        Class::MimetypeNotFirst => 12,
        Class::MimetypeCompressed => 13,
        Class::DeclaredSizeMismatch => 14,
        Class::ManifestMismatch => 15,
        Class::Unclassified => 16,
    }
}

/// The class at a position of the declaration order.
pub open spec fn class_at(i: int) -> Class {
    if i == 0 { Class::ContentByteDiff }
    else if i == 1 { Class::EntryMissing }
    else if i == 2 { Class::EntryAdded }
    else if i == 3 { Class::XmlCanonicalization }
    else if i == 4 { Class::TextEncoding }
    else if i == 5 { Class::LineEndings }
    else if i == 6 { Class::EntryOrder }
    else if i == 7 { Class::Timestamp }
    else if i == 8 { Class::CompressionMethod }
    else if i == 9 { Class::CompressionLevel }
    else if i == 10 { Class::ExtraField }
    else if i == 11 { Class::Comment }
    else if i == 12 { Class::MimetypeNotFirst }
    else if i == 13 { Class::MimetypeCompressed }
    else if i == 14 { Class::DeclaredSizeMismatch }
    else if i == 15 { Class::ManifestMismatch }
    else { Class::Unclassified }
}

/// The stable slug of a class.
pub open spec fn slug_of(c: Class) -> Seq<char> {
    match c {
        Class::ContentByteDiff => "content-byte-diff"@,
        Class::EntryMissing => "entry-missing"@,
        Class::EntryAdded => "entry-added"@,
        Class::XmlCanonicalization => "xml-canonicalization"@,
        Class::TextEncoding => "text-encoding"@,
        Class::LineEndings => "line-endings"@,
        Class::EntryOrder => "entry-order"@,
        Class::Timestamp => "timestamp"@,
        Class::CompressionMethod => "compression-method"@,
        Class::CompressionLevel => "compression-level"@,
        Class::ExtraField => "extra-field"@,
        Class::Comment => "comment"@,
        Class::MimetypeNotFirst => "mimetype-not-first"@,
        Class::MimetypeCompressed => "mimetype-compressed"@,
        Class::DeclaredSizeMismatch => "declared-size-mismatch"@,
        Class::ManifestMismatch => "manifest-mismatch"@,
        Class::Unclassified => "unclassified"@,
    }
}

/// The number of classes.
pub const CLASS_COUNT: usize = 17;

impl Class {
    /// Every class, in declaration order, for reporting a full histogram
    /// including empty buckets.
    pub const ALL: [Class; 17] = [
        Class::ContentByteDiff,
        Class::EntryMissing,
        Class::EntryAdded,
        Class::XmlCanonicalization,
        Class::TextEncoding,
        Class::LineEndings,
        Class::EntryOrder,
        Class::Timestamp,
        Class::CompressionMethod,
        Class::CompressionLevel,
        Class::ExtraField,
        Class::Comment,
        Class::MimetypeNotFirst,
        Class::MimetypeCompressed,
        Class::DeclaredSizeMismatch,
        Class::ManifestMismatch,
        Class::Unclassified,
    ];

    /// The group this class belongs to.
    pub fn group(self) -> (g: Group)
        ensures
            g == group_of(self),
    {
        match self {
            Class::ContentByteDiff | Class::EntryMissing | Class::EntryAdded
            | Class::XmlCanonicalization | Class::TextEncoding | Class::LineEndings => Group::EntryContent,
            Class::EntryOrder | Class::Timestamp | Class::CompressionMethod
            | Class::CompressionLevel | Class::ExtraField | Class::Comment => Group::ContainerMetadata,
            Class::MimetypeNotFirst | Class::MimetypeCompressed | Class::DeclaredSizeMismatch
            | Class::ManifestMismatch => Group::DeclaredActual,
            Class::Unclassified => Group::Unclassified,
        }
    }

    /// Whether this class counts against the lossless criterion. Only entry
    /// content does, and an unnameable observation counts as failing.
    pub fn bears_on_losslessness(self) -> (b: bool)
        ensures
            b == bears(self),
    {
        match self.group() {
            Group::EntryContent | Group::Unclassified => true,
            _ => false,
        }
    }

    /// Position in the declaration order.
    pub fn rank(self) -> (r: usize)
        ensures
            r as int == class_rank(self),
            r < CLASS_COUNT,
    {
        match self {
            Class::ContentByteDiff => 0,
            Class::EntryMissing => 1,
            Class::EntryAdded => 2,
            Class::XmlCanonicalization => 3,
            Class::TextEncoding => 4,
            Class::LineEndings => 5,
            Class::EntryOrder => 6,
            Class::Timestamp => 7,
            Class::CompressionMethod => 8,
            Class::CompressionLevel => 9,
            Class::ExtraField => 10,
            Class::Comment => 11,
            Class::MimetypeNotFirst => 12,
            Class::MimetypeCompressed => 13,
            Class::DeclaredSizeMismatch => 14,
            Class::ManifestMismatch => 15,
            Class::Unclassified => 16,
        }
    }

    /// Stable slug for manifests and reports.
    pub fn slug(self) -> (s: &'static str)
        ensures
            s@ == slug_of(self),
    {
        match self {
            Class::ContentByteDiff => "content-byte-diff",
            Class::EntryMissing => "entry-missing",
            Class::EntryAdded => "entry-added",
            Class::XmlCanonicalization => "xml-canonicalization",
            Class::TextEncoding => "text-encoding",
            Class::LineEndings => "line-endings",
            Class::EntryOrder => "entry-order",
            Class::Timestamp => "timestamp",
            Class::CompressionMethod => "compression-method",
            Class::CompressionLevel => "compression-level",
            Class::ExtraField => "extra-field",
            Class::Comment => "comment",
            Class::MimetypeNotFirst => "mimetype-not-first",
            Class::MimetypeCompressed => "mimetype-compressed",
            Class::DeclaredSizeMismatch => "declared-size-mismatch",
            Class::ManifestMismatch => "manifest-mismatch",
            Class::Unclassified => "unclassified",
        }
    }
}

/// Rank and position agree: every class sits at its own rank.
pub proof fn lemma_rank_position(c: Class)
    ensures
        class_at(class_rank(c)) == c,
        0 <= class_rank(c) < 17,
{
}

/// One observed divergence: the class, where it was seen, and enough detail to
/// act on without holding the book. The detail never carries an entry's
/// contents.
#[derive(Debug, Clone)]
pub struct Divergence {
    /// Which class this observation falls into.
    pub class: Class,
    /// Archive entry the divergence was observed in, where applicable.
    pub entry: Option<String>,
    /// Human-readable specifics.
    pub detail: String,
}

/// The mathematical content of a divergence.
pub struct DivergenceView {
    pub class: Class,
    pub entry: Option<Seq<char>>,
    pub detail: Seq<char>,
}

impl View for Divergence {
    type V = DivergenceView;

    open spec fn view(&self) -> DivergenceView {
        DivergenceView { class: self.class, entry: crate::text::opt_view(self.entry), detail: self.detail@ }
    }
}

impl Divergence {
    /// A divergence attached to a named entry.
    pub fn entry(class: Class, entry: &str, detail: &str) -> (d: Divergence)
        ensures
            d@ == (DivergenceView { class, entry: Some(entry@), detail: detail@ }),
    {
        Divergence { class, entry: Some(entry.to_owned()), detail: detail.to_owned() }
    }

    /// A divergence about the archive as a whole.
    pub fn archive(class: Class, detail: &str) -> (d: Divergence)
        ensures
            d@ == (DivergenceView { class, entry: None, detail: detail@ }),
    {
        Divergence { class, entry: None, detail: detail.to_owned() }
    }
}

/// The class at a position of the declaration order.
pub(crate) fn class_at_exec(k: usize) -> (c: Class)
    requires
        k < 17,
    ensures
        c == class_at(k as int),
{
    if k == 0 { Class::ContentByteDiff }
    else if k == 1 { Class::EntryMissing }
    else if k == 2 { Class::EntryAdded }
    else if k == 3 { Class::XmlCanonicalization }
    else if k == 4 { Class::TextEncoding }
    else if k == 5 { Class::LineEndings }
    else if k == 6 { Class::EntryOrder }
    else if k == 7 { Class::Timestamp }
    else if k == 8 { Class::CompressionMethod }
    else if k == 9 { Class::CompressionLevel }
    else if k == 10 { Class::ExtraField }
    else if k == 11 { Class::Comment }
    else if k == 12 { Class::MimetypeNotFirst }
    else if k == 13 { Class::MimetypeCompressed }
    else if k == 14 { Class::DeclaredSizeMismatch }
    else if k == 15 { Class::ManifestMismatch }
    else { Class::Unclassified }
}

} // verus!
