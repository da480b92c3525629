//! An OCF archive as a comparable model.
//!
//! The classifier needs more than the bytes: it needs the container facts the
//! bytes are wrapped in. So an archive holds its entries *and* their storage
//! metadata, in central directory order, and keeps the order.

use vstd::prelude::*;
use crate::text::{opt_view, str_eq};

verus! {

/// One archive entry, with the container metadata the classifier compares.
#[derive(Debug, Clone)]
pub struct Entry {
    /// Path within the container, as written.
    pub name: String,
    /// Uncompressed bytes.
    pub data: Vec<u8>,
    /// Compression method, as reported by the zip reader.
    pub method: String,
    /// Compressed size on disk.
    pub compressed_size: u64,
    /// Last-modified timestamp, if the entry carries one.
    pub modified: Option<String>,
    /// CRC-32 recorded in the archive, not recomputed.
    pub declared_crc: u32,
    /// Uncompressed size recorded in the archive, not measured.
    pub declared_size: u64,
    /// Per-entry comment.
    pub comment: String,
    /// Raw extra field bytes.
    pub extra: Vec<u8>,
}

/// The mathematical content of an entry.
pub struct EntryView {
    pub name: Seq<char>,
    pub data: Seq<u8>,
    pub method: Seq<char>,
    pub compressed_size: u64,
    pub modified: Option<Seq<char>>,
    pub declared_crc: u32,
    pub declared_size: u64,
    pub comment: Seq<char>,
    pub extra: Seq<u8>,
}

impl View for Entry {
    type V = EntryView;

    open spec fn view(&self) -> EntryView {
        EntryView {
            name: self.name@,
            data: self.data@,
            method: self.method@,
            compressed_size: self.compressed_size,
            modified: opt_view(self.modified),
            declared_crc: self.declared_crc,
            declared_size: self.declared_size,
            comment: self.comment@,
            extra: self.extra@,
        }
    }
}

/// A whole OCF container, in the order the archive stores it.
#[derive(Debug, Clone)]
pub struct Archive {
    /// Entries in central-directory order. Order is data, not incidental.
    pub entries: Vec<Entry>,
    /// Archive-level comment.
    pub comment: String,
}

/// The mathematical content of an archive.
pub struct ArchiveView {
    pub entries: Seq<EntryView>,
    pub comment: Seq<char>,
}

/// Entry views of a vector of entries.
pub open spec fn entry_views(es: Seq<Entry>) -> Seq<EntryView> {
    es.map_values(|e: Entry| e@)
}

impl View for Archive {
    type V = ArchiveView;

    open spec fn view(&self) -> ArchiveView {
        ArchiveView { entries: entry_views(self.entries@), comment: self.comment@ }
    }
}

/// Some entry carries this name.
pub open spec fn has_name(es: Seq<EntryView>, name: Seq<char>) -> bool {
    exists|i: int| 0 <= i < es.len() && (#[trigger] es[i]).name == name
}

/// `i` is the first position carrying this name.
pub open spec fn first_named(es: Seq<EntryView>, name: Seq<char>, i: int) -> bool {
    0 <= i < es.len() && es[i].name == name && forall|j: int| 0 <= j < i ==> (#[trigger] es[j]).name != name
}

/// The first entry carrying a name, if any: what a lookup by name yields.
pub open spec fn lookup(es: Seq<EntryView>, name: Seq<char>) -> Option<EntryView> {
    if has_name(es, name) {
        Some(es[choose|i: int| first_named(es, name, i)])
    } else {
        None
    }
}

/// The first position of a name is unique, and exists when the name does.
pub proof fn lemma_first_named(es: Seq<EntryView>, name: Seq<char>, i: int)
    requires
        first_named(es, name, i),
    ensures
        has_name(es, name),
        lookup(es, name) == Some(es[i]),
{
    let k = choose|k: int| first_named(es, name, k);
    assert(first_named(es, name, k));
    if k < i {
        assert(es[k].name != name);
    }
    if i < k {
        assert(es[i].name != name);
    }
}

/// Names in stored order.
pub open spec fn names_of(es: Seq<EntryView>) -> Seq<Seq<char>> {
    Seq::new(es.len(), |i: int| es[i].name)
}

impl Archive {
    /// Look an entry up by name: the first one carrying it.
    pub fn get(&self, name: &str) -> (r: Option<&Entry>)
        ensures
            match r {
                Some(e) => lookup(self@.entries, name@) == Some(e@),
                None => lookup(self@.entries, name@) is None,
            },
    {
        let mut i: usize = 0;
        while i < self.entries.len()
            invariant
                i <= self.entries@.len(),
                forall|j: int| 0 <= j < i ==> (#[trigger] self@.entries[j]).name != name@,
            decreases self.entries@.len() - i,
        {
            if str_eq(self.entries[i].name.as_str(), name) {
                proof {
                    lemma_first_named(self@.entries, name@, i as int);
                }
                return Some(&self.entries[i]);
            }
            i = i + 1;
        }
        assert(!has_name(self@.entries, name@));
        None
    }

    /// Entry names in stored order.
    pub fn order(&self) -> (r: Vec<&str>)
        ensures
            str_views(r@) == names_of(self@.entries),
    {
        let mut r: Vec<&str> = Vec::new();
        let mut i: usize = 0;
        while i < self.entries.len()
            invariant
                i <= self.entries@.len(),
                r@.len() == i,
                str_views(r@) == names_of(self@.entries).subrange(0, i as int),
            decreases self.entries@.len() - i,
        {
            let n = self.entries[i].name.as_str();
            assert(n@ == self@.entries[i as int].name);
            let ghost prev = r@;
            r.push(n);
            assert forall|k: int| 0 <= k < i + 1 implies str_views(r@)[k] == names_of(self@.entries)[k] by {
                if k < i {
                    assert(r@[k] == prev[k]);
                    assert(str_views(prev)[k] == names_of(self@.entries).subrange(0, i as int)[k]);
                } else {
                    assert(r@[k] == n);
                }
            }
            i = i + 1;
            assert(str_views(r@) =~= names_of(self@.entries).subrange(0, i as int));
        }
        assert(names_of(self@.entries).subrange(0, i as int) =~= names_of(self@.entries));
        r
    }
}

/// The character views of a sequence of string slices.
pub open spec fn str_views(v: Seq<&str>) -> Seq<Seq<char>> {
    Seq::new(v.len(), |i: int| v[i]@)
}

} // verus!
