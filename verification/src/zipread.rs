//! Reading a zip container from bytes in memory, with the zip crate.
//!
//! What the reader makes of some bytes is named rather than described: the
//! entry count or the refusal is [`zip_listing`], entry `i` with its storage
//! metadata is [`zip_item`], and the archive comment is
//! [`zip_comment_bytes`] — each a function of the bytes alone. Which entries
//! become part of an [`Archive`], and in what order, is this library's own
//! logic and is verified against those names.

use vstd::prelude::*;
use std::io::{Cursor, Read};
use zip::ZipArchive;
use crate::archive::{entry_views, Archive, ArchiveView, Entry, EntryView};
use crate::error::{F2Error, F2ErrorView};
use crate::text::{lossy_text, opt_view, utf8_lossy};

verus! {

#[verifier::external_type_specification]
#[verifier::external_body]
#[verifier::reject_recursive_types(T)]
pub struct ExCursor<T>(Cursor<T>);

#[verifier::external_type_specification]
#[verifier::external_body]
#[verifier::reject_recursive_types(R)]
pub struct ExZipArchive<R>(ZipArchive<R>);

/// One archive member as the reader reports it.
pub struct ZipItem {
    /// Path within the container.
    pub name: String,
    /// Whether the member is a directory record.
    pub is_dir: bool,
    /// Uncompressed bytes.
    pub data: Vec<u8>,
    /// Compression method, as the reader names it.
    pub method: String,
    /// Compressed size.
    pub compressed_size: u64,
    /// Last-modified timestamp, as the reader renders it.
    pub modified: Option<String>,
    /// CRC-32 recorded in the archive.
    pub declared_crc: u32,
    /// Uncompressed size recorded in the archive.
    pub declared_size: u64,
    /// Per-entry comment.
    pub comment: String,
    /// Raw extra field bytes.
    pub extra: Vec<u8>,
}

/// The mathematical content of a member.
pub struct ZipItemView {
    pub name: Seq<char>,
    pub is_dir: bool,
    pub entry: EntryView,
}

impl View for ZipItem {
    type V = ZipItemView;

    open spec fn view(&self) -> ZipItemView {
        ZipItemView {
            name: self.name@,
            is_dir: self.is_dir,
            entry: EntryView {
                name: self.name@,
                data: self.data@,
                method: self.method@,
                compressed_size: self.compressed_size,
                modified: opt_view(self.modified),
                declared_crc: self.declared_crc,
                declared_size: self.declared_size,
                comment: self.comment@,
                extra: self.extra@,
            },
        }
    }
}

/// An archive open over bytes held in memory.
pub type ZipReader = ZipArchive<Cursor<Vec<u8>>>;

/// What opening some bytes as a zip archive gives: the number of entries in
/// its central directory, or the reader's refusal as text.
pub uninterp spec fn zip_listing(bytes: Seq<u8>) -> Result<nat, Seq<char>>;

/// The archive-level comment of some bytes read as a zip archive.
pub uninterp spec fn zip_comment_bytes(bytes: Seq<u8>) -> Seq<u8>;

/// Member `i` of some bytes read as a zip archive, with its bytes
/// decompressed, or the error reading it.
pub uninterp spec fn zip_item(bytes: Seq<u8>, i: nat) -> Result<ZipItemView, F2ErrorView>;

/// The bytes an open archive reads from.
pub uninterp spec fn zip_source(z: ZipReader) -> Seq<u8>;

/// `ZipArchive::new` over a copy of the bytes. Claimed: it opens exactly when
/// the bytes list as an archive, reading from those bytes, and otherwise
/// fails with the listing's refusal.
#[verifier::external_body]
pub(crate) fn zip_open(bytes: &[u8]) -> (r: Result<ZipReader, String>)
    ensures
        match r {
            Ok(z) => zip_source(z) == bytes@ && zip_listing(bytes@) is Ok,
            Err(e) => zip_listing(bytes@) == refused(e@),
        },
{
    ZipArchive::new(Cursor::new(bytes.to_vec())).map_err(|e| e.to_string())
}

/// A refusal to list.
pub open spec fn refused(e: Seq<char>) -> Result<nat, Seq<char>> {
    Err(e)
}

/// A member read.
pub open spec fn read_ok(v: ZipItemView) -> Result<ZipItemView, F2ErrorView> {
    Ok(v)
}

/// A member that could not be read.
pub open spec fn read_err(e: F2ErrorView) -> Result<ZipItemView, F2ErrorView> {
    Err(e)
}

/// A listing of `n` entries.
pub open spec fn listed(n: usize) -> Result<nat, Seq<char>> {
    Ok(n as nat)
}

/// `ZipArchive::len`. Claimed: the listing's entry count.
#[verifier::external_body]
pub(crate) fn zip_len(z: &ZipReader) -> (count: usize)
    ensures
        zip_listing(zip_source(*z)) == listed(count),
{
    z.len()
}

/// `ZipArchive::comment`, copied. Claimed: the named comment of the bytes.
#[verifier::external_body]
pub(crate) fn zip_comment(z: &ZipReader) -> (c: Vec<u8>)
    ensures
        c@ == zip_comment_bytes(zip_source(*z)),
{
    z.comment().to_vec()
}

/// `ZipArchive::by_index` and `read_to_end` on the member, converted to plain
/// values; the method and timestamp rendered as the reader's `Debug` gives
/// them. Claimed: the named member of the bytes, and the archive still reads
/// from the same bytes.
#[verifier::external_body]
pub(crate) fn zip_entry(z: &mut ZipReader, i: usize) -> (r: Result<ZipItem, F2Error>)
    ensures
        zip_source(*final(z)) == zip_source(*old(z)),
        match r {
            Ok(it) => zip_item(zip_source(*old(z)), i as nat) == read_ok(it@),
            Err(e) => zip_item(zip_source(*old(z)), i as nat) == read_err(e@),
        },
{
    let mut f = z.by_index(i).map_err(|e| F2Error::Zip(e.to_string()))?;
    let mut data = vec![];
    f.read_to_end(&mut data).map_err(|e| F2Error::Io { path: f.name().into(), message: e.to_string() })?;
    Ok(ZipItem {
        name: f.name().into(), is_dir: f.is_dir(), data, method: format!("{:?}", f.compression()),
        compressed_size: f.compressed_size(), modified: f.last_modified().map(|t| format!("{t:?}")),
        declared_crc: f.crc32(), declared_size: f.size(), comment: f.comment().into(),
        extra: f.extra_data().unwrap_or(&[]).to_vec(),
    })
}

/// The entries of the first `k` members, directory records skipped, or the
/// first error reading them.
pub open spec fn entries_upto(bytes: Seq<u8>, k: nat) -> Result<Seq<EntryView>, F2ErrorView>
    decreases k,
{
    if k == 0 {
        Ok(Seq::empty())
    } else {
        match entries_upto(bytes, (k - 1) as nat) {
            Err(e) => Err(e),
            Ok(es) => match zip_item(bytes, (k - 1) as nat) {
                Err(e) => Err(e),
                Ok(it) => if it.is_dir { Ok(es) } else { Ok(es.push(it.entry)) },
            },
        }
    }
}

/// What reading some bytes as a container gives: its non-directory members
/// in central-directory order and its comment, or the first failure.
pub open spec fn archive_of(bytes: Seq<u8>) -> Result<ArchiveView, F2ErrorView> {
    match zip_listing(bytes) {
        Err(t) => Err(F2ErrorView::Zip(t)),
        Ok(n) => match entries_upto(bytes, n) {
            Err(e) => Err(e),
            Ok(es) => Ok(ArchiveView { entries: es, comment: lossy_text(zip_comment_bytes(bytes)) }),
        },
    }
}

/// Once reading fails, it stays failed with the same error.
proof fn lemma_failure_persists(bytes: Seq<u8>, k: nat, m: nat)
    requires
        k <= m,
        entries_upto(bytes, k) is Err,
    ensures
        entries_upto(bytes, m) == entries_upto(bytes, k),
    decreases m - k,
{
    if k < m {
        lemma_failure_persists(bytes, k, (m - 1) as nat);
    }
}

impl Archive {
    /// Read a container held in memory: entries and their storage metadata in
    /// central-directory order, directory records skipped.
    pub fn from_bytes(bytes: &[u8]) -> (r: Result<Archive, F2Error>)
        ensures
            match r {
                Ok(a) => archive_of(bytes@) == Ok::<ArchiveView, F2ErrorView>(a@),
                Err(e) => archive_of(bytes@) == Err::<ArchiveView, F2ErrorView>(e@),
            },
    {
        let mut z = match zip_open(bytes) {
            Ok(z) => z,
            Err(e) => return Err(F2Error::Zip(e)),
        };
        let comment = utf8_lossy(zip_comment(&z).as_slice());
        let n = zip_len(&z);
        let mut entries: Vec<Entry> = Vec::new();
        let mut i: usize = 0;
        assert(entry_views(entries@) =~= Seq::<EntryView>::empty());
        while i < n
            invariant
                zip_source(z) == bytes@,
                zip_listing(bytes@) == Ok::<nat, Seq<char>>(n as nat),
                i <= n,
                entries_upto(bytes@, i as nat) == Ok::<Seq<EntryView>, F2ErrorView>(entry_views(entries@)),
            decreases n - i,
        {
            match zip_entry(&mut z, i) {
                Err(e) => {
                    proof {
                        lemma_failure_persists(bytes@, (i + 1) as nat, n as nat);
                    }
                    return Err(e);
                },
                Ok(it) => {
                    if !it.is_dir {
                        let ghost before = entry_views(entries@);
                        let e = Entry {
                            name: it.name,
                            data: it.data,
                            method: it.method,
                            compressed_size: it.compressed_size,
                            modified: it.modified,
                            declared_crc: it.declared_crc,
                            declared_size: it.declared_size,
                            comment: it.comment,
                            extra: it.extra,
                        };
                        entries.push(e);
                        assert(entry_views(entries@) =~= before.push(e@));
                    }
                },
            }
            i = i + 1;
        }
        Ok(Archive { entries, comment })
    }
}

} // verus!
