//! Writing a zip container into memory, with the zip crate.
//!
//! The writer is followed as a list of what was written to it: each entry's
//! name, storage, timestamp, extra field and the chunks of its body, and the
//! archive comment. The bytes it produces from such a list are named,
//! [`zip_built`] — a function of the list alone.
//!
//! Writing into memory cannot fail for lack of room, so the writer refuses
//! only what its own checks refuse. The wrappers say when those checks pass:
//! a fresh name, a valid timestamp, an extra field it can parse, and entries
//! and a comment small enough that no field outgrows its 16- or 32-bit width.

use vstd::prelude::*;
use std::io::{Cursor, Write};
use zip::write::{ExtendedFileOptions, FileOptions};
use zip::{CompressionMethod, DateTime, ZipWriter};

verus! {

/// A zip writer into memory. Its bound on the buffer type is not one Verus
/// reads, so the writer is held opaque and followed through the names below.
#[verifier::external_body]
pub struct MemWriter {
    w: ZipWriter<Cursor<Vec<u8>>>,
}

/// A modification time as year, month, day, hour, minute and second.
pub type Stamp = (u16, u8, u8, u8, u8, u8);

/// One entry as it was written: name, whether stored uncompressed, its
/// modification time, its extra field as header id and payload, and its body
/// as the chunks written.
pub struct WrittenEntry {
    pub name: Seq<char>,
    pub stored: bool,
    pub modified: Stamp,
    pub extra: Option<(u16, Seq<u8>)>,
    pub chunks: Seq<Seq<u8>>,
}

/// The bytes a writer produces for these entries and this archive comment.
pub uninterp spec fn zip_built(entries: Seq<WrittenEntry>, comment: Seq<char>) -> Seq<u8>;

/// What has been written to a writer so far.
pub uninterp spec fn zip_written(w: MemWriter) -> Seq<WrittenEntry>;

/// The archive comment a writer carries.
pub uninterp spec fn zip_note(w: MemWriter) -> Seq<char>;

/// Whether a writer has an entry open for its body, as `is_writing_file`
/// reports.
pub uninterp spec fn zip_in_entry(w: MemWriter) -> bool;

/// The view of an optional extra field.
pub open spec fn extra_view(e: Option<(u16, Vec<u8>)>) -> Option<(u16, Seq<u8>)> {
    match e {
        Some((id, d)) => Some((id, d@)),
        None => None,
    }
}

/// A time the writer accepts on any day of any month: 1980 to 2107, days up
/// to the 28th, no leap second.
pub open spec fn stamp_ok(t: Stamp) -> bool {
    &&& 1980 <= t.0 <= 2107
    &&& 1 <= t.1 <= 12
    &&& 1 <= t.2 <= 28
    &&& t.3 <= 23
    &&& t.4 <= 59
    &&& t.5 <= 58
}

/// An extra field the writer accepts: none, or an extended timestamp of a
/// flags byte naming at most the three defined times and one 4-byte time.
pub open spec fn extra_ok(e: Option<(u16, Seq<u8>)>) -> bool {
    match e {
        None => true,
        Some((id, d)) => id == 0x5455 && d.len() == 5 && d[0] < 8,
    }
}

/// The bytes of a body written in chunks.
pub open spec fn chunks_len(c: Seq<Seq<u8>>) -> int
    decreases c.len(),
{
    if c.len() == 0 { 0 } else { chunks_len(c.drop_last()) + c.last().len() }
}

/// The most body bytes an entry may carry here: far below the 32-bit size
/// fields, deflated or not.
pub const ENTRY_LIMIT: usize = 0x100000;

/// Entries the writer can finish without 64-bit fields or oversized headers:
/// at most 1024, each with a name of fewer than 16384 characters, an extra
/// field it accepts, and at most [`ENTRY_LIMIT`] body bytes.
pub open spec fn small(es: Seq<WrittenEntry>) -> bool {
    &&& es.len() <= 1024
    &&& forall|i: int| 0 <= i < es.len() ==> {
        &&& (#[trigger] es[i]).name.len() < 16384
        &&& extra_ok(es[i].extra)
        &&& chunks_len(es[i].chunks) <= ENTRY_LIMIT
    }
}

/// `ZipWriter::new` over an empty in-memory buffer. Claimed: nothing written,
/// no comment, no entry open.
#[verifier::external_body]
pub(crate) fn zip_writer() -> (w: MemWriter)
    ensures
        zip_written(w) == Seq::<WrittenEntry>::empty(),
        zip_note(w) == Seq::<char>::empty(),
        !zip_in_entry(w),
{
    MemWriter { w: ZipWriter::new(Cursor::new(Vec::new())) }
}

/// `ZipWriter::set_comment`. Claimed: the comment is set, nothing else
/// changes.
#[verifier::external_body]
pub(crate) fn zip_set_comment(w: &mut MemWriter, c: &str)
    ensures
        zip_written(*final(w)) == zip_written(*old(w)),
        zip_note(*final(w)) == c@,
        zip_in_entry(*final(w)) == zip_in_entry(*old(w)),
{
    w.w.set_comment(c)
}

/// `ZipWriter::start_file`, with options stored or deflated, the time given
/// by `DateTime::from_date_and_time`, and the extra field added to the local
/// header. Claimed: on success a new empty entry is written and open. It
/// succeeds when the name is new, the time and extra field are accepted, and
/// the entries so far are small; nothing else is claimed of a failure. The
/// name must fit the header's 16-bit length field — the writer panics on a
/// longer one — which a name of fewer than 16384 characters always does.
#[verifier::external_body]
pub(crate) fn zip_start_file(
    w: &mut MemWriter,
    name: &str,
    stored: bool,
    modified: Stamp,
    extra: &Option<(u16, Vec<u8>)>,
) -> (r: Result<(), String>)
    requires
        name@.len() < 16384,
    ensures
        r is Ok ==> zip_written(*final(w)) == zip_written(*old(w)).push(
            WrittenEntry { name: name@, stored, modified, extra: extra_view(*extra), chunks: Seq::empty() },
        ),
        r is Ok ==> zip_note(*final(w)) == zip_note(*old(w)),
        r is Ok ==> zip_in_entry(*final(w)),
        (forall|i: int| 0 <= i < zip_written(*old(w)).len() ==> (#[trigger] zip_written(*old(w))[i]).name != name@)
            && zip_written(*old(w)).len() < 1024 && small(zip_written(*old(w))) && stamp_ok(modified)
            && extra_ok(extra_view(*extra)) ==> r is Ok,
{
    let (y, mo, d, h, mi, s) = modified;
    let t = DateTime::from_date_and_time(y, mo, d, h, mi, s).map_err(|e| e.to_string())?;
    let method = if stored { CompressionMethod::Stored } else { CompressionMethod::Deflated };
    let mut o = FileOptions::<ExtendedFileOptions>::default().compression_method(method).last_modified_time(t);
    if let Some((id, data)) = extra {
        o.add_extra_data(*id, data.clone().into_boxed_slice(), false).map_err(|e| e.to_string())?;
    }
    w.w.start_file(name, o).map_err(|e| e.to_string())
}

/// `Write::write_all` on the writer. Claimed: on success the bytes are one
/// more chunk of the entry being written, which stays open. It succeeds when
/// an entry is open, the entries are small, and the open entry stays within
/// [`ENTRY_LIMIT`].
#[verifier::external_body]
pub(crate) fn zip_write_all(w: &mut MemWriter, data: &[u8]) -> (r: Result<(), String>)
    requires
        zip_written(*old(w)).len() > 0,
    ensures
        r is Ok ==> zip_written(*final(w)) == zip_written(*old(w)).update(
            zip_written(*old(w)).len() - 1,
            WrittenEntry {
                chunks: zip_written(*old(w)).last().chunks.push(data@),
                ..zip_written(*old(w)).last()
            },
        ),
        r is Ok ==> zip_note(*final(w)) == zip_note(*old(w)),
        r is Ok ==> zip_in_entry(*final(w)),
        zip_in_entry(*old(w)) && small(zip_written(*old(w)))
            && chunks_len(zip_written(*old(w)).last().chunks) + data@.len() <= ENTRY_LIMIT ==> r is Ok,
{
    w.w.write_all(data).map_err(|e| e.to_string())
}

/// `ZipWriter::finish`, the buffer taken out. Claimed: on success, the named
/// bytes of what was written; it succeeds when the entries are small and the
/// comment fits its 16-bit length field.
#[verifier::external_body]
pub(crate) fn zip_finish(w: MemWriter) -> (r: Result<Vec<u8>, String>)
    ensures
        r matches Ok(b) ==> b@ == zip_built(zip_written(w), zip_note(w)),
        small(zip_written(w)) && zip_note(w).len() < 16384 ==> r is Ok,
{
    w.w.finish().map(|c| c.into_inner()).map_err(|e| e.to_string())
}

} // verus!
