//! The file system table: one entry per scanned file (and, on request, per
//! directory), kept sorted by path and unique by path, with the paths in a
//! `PathStore` and inline file content in one byte arena.
use crate::digest::{compute_content_digest, content_digest};
use crate::merge::{
    dedup_keep_last, has_path, lemma_permutation_members, merge_result, merge_sorted,
    path_lt, sort_entries_by_path, strictly_sorted,
};
use crate::pathstore::{
    lemma_index_of, lemma_index_order, segments_view, valid_path, PathStore,
};
use core::cmp::Ordering;
use vstd::prelude::*;

verus! {

#[derive(Clone, Copy, Debug, PartialEq, Eq, Structural)]
pub struct Flags {
    pub is_dir: bool,
    pub dotfile: bool,
    pub symlink: bool,
    pub readable: bool,
    pub writable: bool,
    pub executable: bool,
}

impl Default for Flags {
    fn default() -> (r: Flags)
        ensures
            !r.is_dir && !r.dotfile && !r.symlink && !r.readable && !r.writable && !r.executable,
    {
        Flags {
            is_dir: false,
            dotfile: false,
            symlink: false,
            readable: false,
            writable: false,
            executable: false,
        }
    }
}

/// What an entry holds of its file's content:
///  `Absent`: nothing;
///  `Bytes(offset)`: the bytes, inline in the table's arena from `offset`;
///  `Digest(offset)`: the address of content stored elsewhere.
#[derive(Clone, Copy, Debug, PartialEq, Eq, Structural)]
pub enum Content {
    Absent,
    Bytes(u32),
    Digest(u32),
}

impl Default for Content {
    fn default() -> (r: Content)
        ensures
            r == Content::Absent,
    {
        Content::Absent
    }
}

/// One scanned file or directory. `path` is an index into the table's
/// path store; `digest`, where present, is never zero.
#[derive(Clone, Copy, Debug, PartialEq, Eq, Structural)]
pub struct Entry {
    pub path: u32,
    pub size: u64,
    pub flags: Flags,
    pub content: Content,
    pub digest: Option<u128>,
}

impl Default for Entry {
    fn default() -> (r: Entry)
        ensures
            r == no_flags_entry(0, 0),
    {
        Entry { path: 0, size: 0, flags: Flags::default(), content: Content::Absent, digest: None }
    }
}

/// An entry for `path` of `size` bytes with every flag clear, no content and
/// no digest.
pub open spec fn no_flags_entry(path: u32, size: u64) -> Entry {
    Entry {
        path,
        size,
        flags: Flags {
            is_dir: false,
            dotfile: false,
            symlink: false,
            readable: false,
            writable: false,
            executable: false,
        },
        content: Content::Absent,
        digest: None,
    }
}

/// What the walk found out about an item from its metadata.
#[derive(Clone, Copy, Debug, PartialEq, Eq, Structural)]
pub struct ItemMetadata {
    pub is_dir: bool,
    pub size: u64,
}

/// One item of a walk: its path relative to the scan root, one element per
/// segment, and its metadata where that could be read.
pub struct ScannedItem {
    pub path: Vec<Vec<u8>>,
    pub metadata: Option<ItemMetadata>,
}

/// How a scan is ingested. `dst` is a destination for a later copy and has
/// no effect on ingestion.
pub struct Ingester {
    pub src: String,
    pub dst: Option<String>,
    pub create_directory_entries: bool,
    pub ingest_file_content: bool,
    pub compute_digests: bool,
}

impl Ingester {
    /// An ingester for the tree under `src`, with every option off.
    pub fn new(src: String) -> (r: Ingester)
        ensures
            r.src@ == src@,
            r.dst is None,
            !r.create_directory_entries,
            !r.ingest_file_content,
            !r.compute_digests,
    {
        Ingester {
            src,
            dst: None,
            create_directory_entries: false,
            ingest_file_content: false,
            compute_digests: false,
        }
    }

    /// Sets where a later copy would go; ingestion does not use it.
    pub fn into_dst(&mut self, dst: String) -> (r: &mut Self)
        ensures
            r.dst == Some(dst),
            r.src == old(self).src,
            r.create_directory_entries == old(self).create_directory_entries,
            r.ingest_file_content == old(self).ingest_file_content,
            r.compute_digests == old(self).compute_digests,
            *final(self) == *final(r),
    {
        self.dst = Some(dst);
        self
    }

    pub fn create_directory_entries(&mut self, enable: bool) -> (r: &mut Self)
        ensures
            r.create_directory_entries == enable,
            r.src == old(self).src,
            r.dst == old(self).dst,
            r.ingest_file_content == old(self).ingest_file_content,
            r.compute_digests == old(self).compute_digests,
            *final(self) == *final(r),
    {
        self.create_directory_entries = enable;
        self
    }

    pub fn ingest_file_content(&mut self, enable: bool) -> (r: &mut Self)
        ensures
            r.ingest_file_content == enable,
            r.src == old(self).src,
            r.dst == old(self).dst,
            r.create_directory_entries == old(self).create_directory_entries,
            r.compute_digests == old(self).compute_digests,
            *final(self) == *final(r),
    {
        self.ingest_file_content = enable;
        self
    }

    pub fn compute_digests(&mut self, enable: bool) -> (r: &mut Self)
        ensures
            r.compute_digests == enable,
            r.src == old(self).src,
            r.dst == old(self).dst,
            r.create_directory_entries == old(self).create_directory_entries,
            r.ingest_file_content == old(self).ingest_file_content,
            *final(self) == *final(r),
    {
        self.compute_digests = enable;
        self
    }

    /// An entry is kept when it is a file, or a directory and directory
    /// entries are asked for.
    pub open spec fn spec_keeps(&self, e: Entry) -> bool {
        !e.flags.is_dir || self.create_directory_entries
    }

    /// The file behind `entry` is to be read: its content or its digest is
    /// asked for, and it is not a directory.
    pub fn reads_content(&self, entry: &Entry) -> (r: bool)
        ensures
            r == ((self.ingest_file_content || self.compute_digests) && !entry.flags.is_dir),
    {
        (self.ingest_file_content || self.compute_digests) && !entry.flags.is_dir
    }
}

/// The entry built for a walked item stored under path index `path`: size
/// and the directory flag from its metadata, or 0 and clear flags where the
/// metadata could not be read.
pub open spec fn scanned_entry(path: u32, metadata: Option<ItemMetadata>) -> Entry {
    match metadata {
        Some(m) => Entry { flags: Flags { is_dir: m.is_dir, ..no_flags_entry(path, m.size).flags }, ..no_flags_entry(path, m.size) },
        None => no_flags_entry(path, 0),
    }
}

/// The total number of segments in the paths of `items`.
pub open spec fn total_segments(items: Seq<ScannedItem>) -> nat
    decreases items.len(),
{
    if items.len() == 0 {
        0
    } else {
        total_segments(items.drop_last()) + items.last().path@.len()
    }
}

/// The entries that a scan of `items` gives, in walk order, with path
/// indices as `paths` holds them.
pub open spec fn scanned_entries(ing: Ingester, paths: PathStore, items: Seq<ScannedItem>) -> Seq<Entry>
    decreases items.len(),
{
    if items.len() == 0 {
        Seq::empty()
    } else {
        let last = items.last();
        let e = scanned_entry(paths.index_of(segments_view(last.path@)), last.metadata);
        let before = scanned_entries(ing, paths, items.drop_last());
        if ing.spec_keeps(e) {
            before.push(e)
        } else {
            before
        }
    }
}

/// `e` can stand beside `paths` and an arena of `arena_len` bytes: its path
/// is stored, its digest is not zero, and its inline bytes lie inside the
/// arena.
pub open spec fn entry_fits_in(paths: PathStore, arena_len: int, e: Entry) -> bool {
    &&& paths.has_index(e.path)
    &&& e.digest != Some(0u128)
    &&& match e.content {
        Content::Bytes(offset) => offset + e.size <= arena_len,
        _ => true,
    }
}

/// The entry that loading `data` into the arena at `offset` gives: its
/// size becomes the length read, and its digest is computed from the bytes
/// where asked for.
pub open spec fn loaded_entry(e: Entry, data: Seq<u8>, offset: u32, compute: bool) -> Entry {
    Entry {
        size: data.len() as u64,
        content: Content::Bytes(offset),
        digest: if compute {
            content_digest(data)
        } else {
            e.digest
        },
        ..e
    }
}

/// `e` with the digest of `data`.
pub open spec fn digested_entry(e: Entry, data: Seq<u8>) -> Entry {
    Entry { digest: content_digest(data), ..e }
}

/// The arena offset of an entry's inline bytes, 0 where it has none.
pub open spec fn content_offset(e: Entry) -> int {
    match e.content {
        Content::Bytes(offset) => offset as int,
        _ => 0,
    }
}

/// The bytes of the reads that succeeded, one after the other.
pub open spec fn loaded_bytes(loaded: Seq<Option<Vec<u8>>>) -> Seq<u8>
    decreases loaded.len(),
{
    if loaded.len() == 0 {
        Seq::empty()
    } else {
        loaded_bytes(loaded.drop_last()) + match loaded.last() {
            Some(b) => b@,
            None => Seq::empty(),
        }
    }
}

/// What becomes of the `i`th new entry when `loaded` holds what reading its
/// file gave, with the arena `arena` at the end.
pub open spec fn attached(ing: Ingester, e: Entry, loaded: Option<Vec<u8>>, r: Entry, arena: Seq<u8>) -> bool {
    if ing.ingest_file_content {
        match loaded {
            None => r == e,
            Some(b) => {
                ||| r == e && arena.len() > u32::MAX
                ||| r == loaded_entry(e, b@, r.content->Bytes_0, ing.compute_digests)
                    && content_offset(r) + b@.len() <= arena.len()
                    && arena.subrange(content_offset(r), content_offset(r) + b@.len()) == b@
            },
        }
    } else if ing.compute_digests {
        match loaded {
            None => r == e,
            Some(b) => r == digested_entry(e, b@),
        }
    } else {
        r == e
    }
}

pub struct Table {
    pub entries: Vec<Entry>,
    pub paths: PathStore,
    pub content: Vec<u8>,
}

impl Table {
    /// `e` can stand in this table: its path is stored, its digest is not
    /// zero, and its inline bytes lie inside the arena.
    pub open spec fn entry_ok(&self, e: Entry) -> bool {
        entry_fits_in(self.paths, self.content@.len() as int, e)
    }

    pub open spec fn wf(&self) -> bool {
        &&& self.paths.wf()
        &&& forall|i: int| 0 <= i < self.entries.len() ==> self.entry_ok(#[trigger] self.entries[i])
        &&& strictly_sorted(self.paths, self.entries@)
    }

    /// An empty table.
    pub fn new() -> (r: Table)
        ensures
            r.wf(),
            r.entries@.len() == 0,
            r.content@.len() == 0,
            r.paths.path_count() == 1,
    {
        Table { entries: Vec::new(), paths: PathStore::new(), content: Vec::new() }
    }

    /// The number of entries.
    pub fn len(&self) -> (r: usize)
        ensures
            r == self.entries@.len(),
    {
        self.entries.len()
    }

    /// Interns the path of each walked item and builds its entry, keeping
    /// the files, and the directories where the ingester asks for them. The
    /// entries come back in walk order; the table's entries are not touched.
    pub fn add_scanned(&mut self, ingester: &Ingester, items: &Vec<ScannedItem>) -> (r: Vec<Entry>)
        requires
            old(self).wf(),
            forall|k: int| 0 <= k < items.len() ==> valid_path(segments_view(#[trigger] items[k].path@)),
            old(self).paths.segment_count() + total_segments(items@) <= u32::MAX,
            old(self).paths.path_count() + total_segments(items@) <= u32::MAX,
        ensures
            final(self).wf(),
            final(self).entries == old(self).entries,
            final(self).content == old(self).content,
            old(self).paths.kept_in(&final(self).paths),
            r@ == scanned_entries(*ingester, final(self).paths, items@),
            forall|k: int| 0 <= k < items.len() ==> final(self).paths.holds(segments_view(#[trigger] items[k].path@)),
            forall|k: int| 0 <= k < r.len() ==> final(self).entry_ok(#[trigger] r[k]),
    {
        let ghost start = *self;
        let mut r: Vec<Entry> = Vec::new();
        let mut k: usize = 0;
        while k < items.len()
            invariant
                self.wf(),
                start.wf(),
                self.entries == start.entries,
                self.content == start.content,
                start.paths.kept_in(&self.paths),
                0 <= k <= items.len(),
                forall|j: int| 0 <= j < items.len() ==> valid_path(segments_view(#[trigger] items[j].path@)),
                start.paths.segment_count() + total_segments(items@) <= u32::MAX,
                start.paths.path_count() + total_segments(items@) <= u32::MAX,
                self.paths.segment_count() <= start.paths.segment_count() + total_segments(items@.take(k as int)),
                self.paths.path_count() <= start.paths.path_count() + total_segments(items@.take(k as int)),
                total_segments(items@.take(k as int)) <= total_segments(items@),
                r@ == scanned_entries(*ingester, self.paths, items@.take(k as int)),
                forall|j: int| 0 <= j < k ==> self.paths.holds(segments_view(#[trigger] items[j].path@)),
                forall|j: int| 0 <= j < r.len() ==> self.entry_ok(#[trigger] r[j]),
            decreases items.len() - k,
        {
            let item = &items[k];
            proof {
                lemma_total_segments_take(items@, k as int);
            }
            let ghost before = self.paths;
            let index = self.paths.add_path(&item.path);
            let mut flags = Flags::default();
            let mut size: u64 = 0;
            match item.metadata {
                Some(meta) => {
                    flags.is_dir = meta.is_dir;
                    size = meta.size;
                },
                None => {},
            }
            let entry = Entry { path: index, size, flags, content: Content::Absent, digest: None };
            proof {
                lemma_index_of(self.paths, index);
                lemma_scanned_entries_kept(*ingester, before, self.paths, items@.take(k as int));
                assert(items@.take(k as int + 1).drop_last() =~= items@.take(k as int));
                assert(entry == scanned_entry(self.paths.index_of(segments_view(item.path@)), item.metadata));
                assert forall|j: int| 0 <= j <= k implies self.paths.holds(segments_view(#[trigger] items[j].path@)) by {
                    if j < k {
                        let i = choose|i: u32| before.has_index(i) && #[trigger] before.path_of(i) == segments_view(items[j].path@);
                        assert(self.paths.path_of(i) == before.path_of(i));
                    } else {
                        assert(self.paths.path_of(index) == segments_view(items[j].path@));
                    }
                }
                assert forall|j: int| 0 <= j < r.len() implies self.entry_ok(#[trigger] r[j]) by {
                    assert(before.has_index(r[j].path));
                }
            }
            if !flags.is_dir || ingester.create_directory_entries {
                r.push(entry);
            }
            k += 1;
        }
        proof {
            assert(items@.take(k as int) =~= items@);
        }
        r
    }

    /// Appends `bytes` to the content arena and returns the offset where
    /// they start, in one step; `None`, with the arena untouched, where that
    /// offset does not fit in 32 bits.
    pub fn append_content(&mut self, bytes: &[u8]) -> (r: Option<u32>)
        requires
            old(self).wf(),
        ensures
            final(self).wf(),
            final(self).entries == old(self).entries,
            final(self).paths == old(self).paths,
            old(self).content.len() <= u32::MAX ==> r == Some(old(self).content.len() as u32)
                && final(self).content@ == old(self).content@ + bytes@,
            old(self).content.len() > u32::MAX ==> r is None && final(self).content
                == old(self).content,
    {
        if self.content.len() > u32::MAX as usize {
            return None;
        }
        let offset = self.content.len() as u32;
        self.content.extend_from_slice(bytes);
        proof {
            assert(self.content@ =~= old(self).content@ + bytes@);
        }
        Some(offset)
    }

    /// Attaches what reading the files of new entries gave (`loaded[k]` for
    /// `entries[k]`, `None` where the read failed). With content ingestion
    /// the bytes go to the arena, in entry order, and the digest is computed
    /// from them where asked for; with digests alone only the digest is
    /// computed. A failed read leaves its entry as it was.
    pub fn attach_loaded(
        &mut self,
        ingester: &Ingester,
        entries: Vec<Entry>,
        loaded: &Vec<Option<Vec<u8>>>,
    ) -> (r: Vec<Entry>)
        requires
            old(self).wf(),
            entries.len() == loaded.len(),
            forall|k: int| 0 <= k < entries.len() ==> old(self).entry_ok(#[trigger] entries[k]),
        ensures
            final(self).wf(),
            final(self).entries == old(self).entries,
            final(self).paths == old(self).paths,
            old(self).content@.is_prefix_of(final(self).content@),
            r.len() == entries.len(),
            forall|k: int| 0 <= k < r.len() ==> final(self).entry_ok(#[trigger] r[k]),
            forall|k: int|
                0 <= k < r.len() ==> attached(
                    *ingester,
                    entries[k],
                    loaded[k],
                    #[trigger] r[k],
                    final(self).content@,
                ),
            ingester.ingest_file_content && final(self).content.len() <= u32::MAX ==> forall|k: int|
                0 <= k < r.len() && loaded[k] is Some ==> (#[trigger] r[k]).content is Bytes,
            ingester.ingest_file_content && final(self).content.len() <= u32::MAX
                ==> final(self).content@ == old(self).content@ + loaded_bytes(loaded@),
            !ingester.ingest_file_content ==> final(self).content == old(self).content,
    {
        let mut r: Vec<Entry> = Vec::new();
        let mut k: usize = 0;
        while k < entries.len()
            invariant
                self.wf(),
                self.entries == old(self).entries,
                self.paths == old(self).paths,
                old(self).content@.is_prefix_of(self.content@),
                entries.len() == loaded.len(),
                forall|j: int| 0 <= j < entries.len() ==> old(self).entry_ok(#[trigger] entries[j]),
                0 <= k <= entries.len(),
                r.len() == k,
                forall|j: int| 0 <= j < k ==> self.entry_ok(#[trigger] r[j]),
                forall|j: int|
                    0 <= j < k ==> attached(
                        *ingester,
                        entries[j],
                        loaded[j],
                        #[trigger] r[j],
                        self.content@,
                    ),
                ingester.ingest_file_content && self.content.len() <= u32::MAX ==> forall|j: int|
                    0 <= j < k && loaded[j] is Some ==> (#[trigger] r[j]).content is Bytes,
                ingester.ingest_file_content && self.content.len() <= u32::MAX ==> self.content@
                    == old(self).content@ + loaded_bytes(loaded@.take(k as int)),
                !ingester.ingest_file_content ==> self.content == old(self).content,
            decreases entries.len() - k,
        {
            let e = entries[k];
            let mut out = e;
            let ghost before = self.content@;
            proof {
                assert(loaded@.take(k as int + 1).drop_last() =~= loaded@.take(k as int));
            }
            if ingester.ingest_file_content {
                match &loaded[k] {
                    Some(bytes) => {
                        match self.append_content(bytes.as_slice()) {
                            Some(offset) => {
                                out.content = Content::Bytes(offset);
                                out.size = bytes.len() as u64;
                                if ingester.compute_digests {
                                    out.digest = compute_content_digest(bytes.as_slice());
                                }
                                proof {
                                    assert(self.content@.subrange(
                                        offset as int,
                                        offset as int + bytes@.len(),
                                    ) =~= bytes@);
                                    assert(old(self).content@ + loaded_bytes(loaded@.take(k as int + 1))
                                        =~= before + bytes@);
                                }
                            },
                            None => {},
                        }
                    },
                    None => {},
                }
            } else if ingester.compute_digests {
                match &loaded[k] {
                    Some(bytes) => {
                        out.digest = compute_content_digest(bytes.as_slice());
                    },
                    None => {},
                }
            }
            proof {
                assert forall|j: int| 0 <= j < k implies attached(
                    *ingester,
                    entries[j],
                    loaded[j],
                    #[trigger] r[j],
                    self.content@,
                ) by {
                    assert(attached(*ingester, entries[j], loaded[j], r[j], before));
                    if ingester.ingest_file_content && loaded[j] is Some && !(r[j] == entries[j]
                        && before.len() > u32::MAX) {
                        let o = content_offset(r[j]);
                        let n = (loaded[j]->0)@.len();
                        assert(self.content@.subrange(o, o + n) =~= before.subrange(o, o + n));
                    }
                }
            }
            proof {
                if ingester.ingest_file_content && loaded[k as int] is None {
                    assert(loaded_bytes(loaded@.take(k as int + 1)) =~= loaded_bytes(
                        loaded@.take(k as int),
                    ));
                }
            }
            r.push(out);
            k += 1;
        }
        proof {
            assert(loaded@.take(k as int) =~= loaded@);
        }
        r
    }

    /// Merges new entries into the table: the result is sorted by path and
    /// unique by path, and where a path has both an old and a new entry, the
    /// new one stands.
    pub fn merge_entries(&mut self, new_entries: Vec<Entry>)
        requires
            old(self).wf(),
            forall|k: int| 0 <= k < new_entries.len() ==> old(self).entry_ok(#[trigger] new_entries[k]),
        ensures
            final(self).wf(),
            final(self).paths == old(self).paths,
            final(self).content == old(self).content,
            merge_result(old(self).entries@, new_entries@, final(self).entries@),
    {
        let mut sorted = new_entries;
        sort_entries_by_path(&mut sorted, &self.paths);
        proof {
            lemma_permutation_members(new_entries@, sorted@);
            assert forall|k: int| 0 <= k < sorted.len() implies self.paths.has_index(#[trigger] sorted[k].path) by {
                assert(sorted@.contains(sorted[k]));
                let m = choose|m: int| 0 <= m < new_entries.len() && new_entries[m] == sorted[k];
                assert(self.entry_ok(new_entries[m]));
            }
        }
        let fresh = dedup_keep_last(&sorted, &self.paths);
        let merged = merge_sorted(&self.entries, &fresh, &self.paths);
        proof {
            assert forall|p: u32| #[trigger] has_path(merged@, p) <==> has_path(self.entries@, p)
                || has_path(new_entries@, p) by {
                assert(has_path(fresh@, p) <==> has_path(sorted@, p));
                assert(has_path(sorted@, p) <==> has_path(new_entries@, p));
            }
            assert forall|k: int|
                0 <= k < merged.len() && has_path(new_entries@, (#[trigger] merged[k]).path)
                    implies new_entries@.contains(merged[k]) by {
                assert(has_path(fresh@, merged[k].path));
                assert(fresh@.contains(merged[k]));
                assert(sorted@.contains(merged[k]));
            }
            assert forall|k: int|
                0 <= k < merged.len() && !has_path(new_entries@, (#[trigger] merged[k]).path)
                    implies self.entries@.contains(merged[k]) by {
                assert(!has_path(fresh@, merged[k].path));
            }
            assert forall|k: int| 0 <= k < merged.len() implies self.entry_ok(#[trigger] merged[k]) by {
                if fresh@.contains(merged[k]) {
                    assert(sorted@.contains(merged[k]));
                    assert(new_entries@.contains(merged[k]));
                } else {
                    assert(self.entries@.contains(merged[k]));
                }
            }
        }
        self.entries = merged;
    }

    /// The entry at position `index`, seen with this table.
    pub fn entry(&self, index: usize) -> (r: TableEntry<'_>)
        requires
            index < self.entries.len(),
        ensures
            r.spec_table() == *self,
            r.spec_entry() == self.entries[index as int],
    {
        TableEntry::new(self, &self.entries[index])
    }

    /// `e` can stand in a table with these paths and this arena.
    pub fn entry_fits(paths: &PathStore, content: &Vec<u8>, e: &Entry) -> (r: bool)
        requires
            paths.wf(),
        ensures
            r == entry_fits_in(*paths, content@.len() as int, *e),
    {
        if e.path as usize >= paths.path_total() {
            return false;
        }
        match e.digest {
            Some(d) => {
                if d == 0 {
                    return false;
                }
            },
            None => {},
        }
        match e.content {
            Content::Bytes(offset) => {
                let len = content.len();
                (offset as usize) <= len && e.size <= (len - offset as usize) as u64
            },
            _ => true,
        }
    }

    /// Rebuilds a table from its parts; `None` exactly where an entry does
    /// not fit the paths or the arena, or the entries are not sorted and
    /// unique by path.
    pub fn from_parts(entries: Vec<Entry>, paths: PathStore, content: Vec<u8>) -> (r: Option<Table>)
        requires
            paths.wf(),
        ensures
            r is Some <==> {
                &&& forall|k: int| 0 <= k < entries.len() ==> entry_fits_in(paths, content@.len() as int, #[trigger] entries[k])
                &&& strictly_sorted(paths, entries@)
            },
            r matches Some(t) ==> t.wf() && t.entries == entries && t.paths == paths && t.content == content,
    {
        let mut k: usize = 0;
        while k < entries.len()
            invariant
                paths.wf(),
                0 <= k <= entries.len(),
                forall|j: int| 0 <= j < k ==> entry_fits_in(paths, content@.len() as int, #[trigger] entries[j]),
                strictly_sorted(paths, entries@.take(k as int)),
            decreases entries.len() - k,
        {
            if !Table::entry_fits(&paths, &content, &entries[k]) {
                return None;
            }
            if k > 0 {
                let c = paths.cmp_paths(entries[k - 1].path, entries[k].path);
                match c {
                    Ordering::Less => {},
                    _ => {
                        proof {
                            let a = k as int - 1;
                            let b = k as int;
                            assert(!path_lt(paths, entries@[a].path, entries@[b].path));
                        }
                        return None;
                    },
                }
            }
            proof {
                let t = entries@.take(k as int + 1);
                assert forall|i: int, j: int| 0 <= i < j < t.len() implies path_lt(paths, #[trigger] t[i].path, #[trigger] t[j].path) by {
                    if j == k && i < k - 1 {
                        assert(path_lt(paths, entries@.take(k as int)[i].path, entries@.take(k as int)[k - 1].path));
                        lemma_index_order(paths, t[i].path, t[k - 1].path, t[j].path);
                    } else if j < k {
                        assert(path_lt(paths, entries@.take(k as int)[i].path, entries@.take(k as int)[j].path));
                    }
                }
            }
            k += 1;
        }
        proof {
            assert(entries@.take(k as int) =~= entries@);
        }
        Some(Table { entries, paths, content })
    }

    /// The walked items can be added by `add_scanned`: no path has an empty
    /// segment, and both index spaces have room for every segment.
    pub fn scan_fits(&self, items: &Vec<ScannedItem>) -> (r: bool)
        requires
            self.wf(),
        ensures
            r == ((forall|k: int| 0 <= k < items.len() ==> valid_path(segments_view(#[trigger] items[k].path@)))
                && self.paths.segment_count() + total_segments(items@) <= u32::MAX
                && self.paths.path_count() + total_segments(items@) <= u32::MAX),
    {
        let segments = self.paths.segment_total() as u64;
        let nodes = self.paths.path_total() as u64;
        let mut total: u64 = 0;
        let mut k: usize = 0;
        while k < items.len()
            invariant
                segments == self.paths.segment_count(),
                nodes == self.paths.path_count(),
                segments <= u32::MAX,
                nodes <= u32::MAX,
                0 <= k <= items.len(),
                total == total_segments(items@.take(k as int)),
                total <= u32::MAX,
                forall|j: int| 0 <= j < k ==> valid_path(segments_view(#[trigger] items[j].path@)),
            decreases items.len() - k,
        {
            let path = &items[k].path;
            let mut i: usize = 0;
            while i < path.len()
                invariant
                    k < items.len(),
                    path@ == items[k as int].path@,
                    0 <= i <= path.len(),
                    forall|m: int| 0 <= m < i ==> (#[trigger] path[m])@.len() > 0,
                decreases path.len() - i,
            {
                if path[i].len() == 0 {
                    proof {
                        assert(segments_view(items[k as int].path@)[i as int].len() == 0);
                    }
                    return false;
                }
                i += 1;
            }
            proof {
                lemma_total_segments_take(items@, k as int);
                assert forall|m: int| 0 <= m < path.len() implies (#[trigger] segments_view(path@)[m]).len() > 0 by {
                    assert(segments_view(path@)[m] == path[m]@);
                }
            }
            if path.len() as u64 > u32::MAX as u64 - total {
                proof {
                    lemma_total_segments_monotone(items@, k as int + 1);
                }
                return false;
            }
            total = total + path.len() as u64;
            k += 1;
        }
        proof {
            assert(items@.take(k as int) =~= items@);
        }
        segments + total <= u32::MAX as u64 && nodes + total <= u32::MAX as u64
    }

    /// An ingester for the tree under `src`, with every option off.
    pub fn ingester(&self, src: String) -> (r: Ingester)
        ensures
            r.src@ == src@,
            r.dst is None,
            !r.create_directory_entries,
            !r.ingest_file_content,
            !r.compute_digests,
    {
        Ingester::new(src)
    }

    /// Gives each entry without a digest the digest of its content, where
    /// `loaded[k]` holds what reading the file of entry `k` gave. Entries
    /// that have a digest keep it.
    pub fn compute_all_digests(&mut self, loaded: &Vec<Option<Vec<u8>>>)
        requires
            old(self).wf(),
            loaded.len() == old(self).entries.len(),
        ensures
            final(self).wf(),
            final(self).paths == old(self).paths,
            final(self).content == old(self).content,
            final(self).entries.len() == old(self).entries.len(),
            forall|k: int|
                0 <= k < final(self).entries.len() ==> #[trigger] final(self).entries[k] == if old(
                    self,
                ).entries[k].digest is None && loaded[k] is Some {
                    digested_entry(old(self).entries[k], loaded[k]->0@)
                } else {
                    old(self).entries[k]
                },
    {
        let mut k: usize = 0;
        while k < self.entries.len()
            invariant
                self.wf(),
                self.paths == old(self).paths,
                self.content == old(self).content,
                self.entries.len() == old(self).entries.len(),
                loaded.len() == old(self).entries.len(),
                0 <= k <= self.entries.len(),
                forall|j: int| k <= j < self.entries.len() ==> #[trigger] self.entries[j] == old(self).entries[j],
                forall|j: int|
                    0 <= j < k ==> #[trigger] self.entries[j] == if old(self).entries[j].digest is None
                        && loaded[j] is Some {
                        digested_entry(old(self).entries[j], loaded[j]->0@)
                    } else {
                        old(self).entries[j]
                    },
            decreases self.entries.len() - k,
        {
            let mut e = self.entries[k];
            if e.digest.is_none() {
                match &loaded[k] {
                    Some(bytes) => {
                        e.digest = compute_content_digest(bytes.as_slice());
                        let ghost before = self.entries@;
                        self.entries.set(k, e);
                        proof {
                            assert forall|i: int, j: int|
                                0 <= i < j < self.entries.len() implies path_lt(
                                    self.paths,
                                    #[trigger] self.entries[i].path,
                                    #[trigger] self.entries[j].path,
                                ) by {
                                assert(path_lt(self.paths, before[i].path, before[j].path));
                            }
                            assert forall|j: int| 0 <= j < self.entries.len() implies self.entry_ok(#[trigger] self.entries[j]) by {
                                assert(self.entry_ok(before[j]));
                            }
                        }
                    },
                    None => {},
                }
            }
            k += 1;
        }
    }
}

proof fn lemma_total_segments_take(items: Seq<ScannedItem>, k: int)
    requires
        0 <= k < items.len(),
    ensures
        total_segments(items.take(k + 1)) == total_segments(items.take(k)) + items[k].path.len(),
        total_segments(items.take(k + 1)) <= total_segments(items),
    decreases items.len() - k,
{
    assert(items.take(k + 1).drop_last() =~= items.take(k));
    if k + 1 < items.len() {
        lemma_total_segments_take(items, k + 1);
    } else {
        assert(items.take(k + 1) =~= items);
    }
}

/// The entries of a scan are the same for any store that keeps the indices
/// of the one they were computed from.
proof fn lemma_scanned_entries_kept(ing: Ingester, s: PathStore, t: PathStore, items: Seq<ScannedItem>)
    requires
        s.wf(),
        t.wf(),
        s.kept_in(&t),
        forall|j: int| 0 <= j < items.len() ==> s.holds(segments_view(#[trigger] items[j].path@)),
    ensures
        scanned_entries(ing, t, items) == scanned_entries(ing, s, items),
    decreases items.len(),
{
    if items.len() > 0 {
        let p = segments_view(items.last().path@);
        assert(s.holds(p));
        let i = choose|i: u32| s.has_index(i) && #[trigger] s.path_of(i) == p;
        lemma_index_of(s, i);
        assert(t.path_of(i) == p);
        lemma_index_of(t, i);
        let rest = items.drop_last();
        assert forall|j: int| 0 <= j < rest.len() implies s.holds(segments_view(#[trigger] rest[j].path@)) by {
            assert(rest[j] == items[j]);
        }
        lemma_scanned_entries_kept(ing, s, t, rest);
    }
}

/// An entry seen together with its table, which resolves its path and its
/// inline content.
pub struct TableEntry<'a> {
    table: &'a Table,
    entry: &'a Entry,
}

impl<'a> TableEntry<'a> {
    pub closed spec fn spec_table(&self) -> Table {
        *self.table
    }

    pub closed spec fn spec_entry(&self) -> Entry {
        *self.entry
    }

    pub fn new(table: &'a Table, entry: &'a Entry) -> (r: TableEntry<'a>)
        ensures
            r.spec_table() == *table,
            r.spec_entry() == *entry,
    {
        TableEntry { table, entry }
    }

    /// The entry's full path, one element per segment.
    pub fn path(&self) -> (r: Vec<Vec<u8>>)
        requires
            self.spec_table().paths.wf(),
            self.spec_table().paths.has_index(self.spec_entry().path),
        ensures
            segments_view(r@) == self.spec_table().paths.path_of(self.spec_entry().path),
    {
        self.table.paths.get_path(self.entry.path)
    }

    pub fn size(&self) -> (r: u64)
        ensures
            r == self.spec_entry().size,
    {
        self.entry.size
    }

    pub fn flags(&self) -> (r: &Flags)
        ensures
            *r == self.spec_entry().flags,
    {
        &self.entry.flags
    }

    pub fn content(&self) -> (r: &Content)
        ensures
            *r == self.spec_entry().content,
    {
        &self.entry.content
    }

    /// The inline bytes of the entry: `size` bytes of the arena from its
    /// offset. `None` where it holds no bytes, or where they would reach
    /// past the arena.
    pub fn contained_content(&self) -> (r: Option<&'a [u8]>)
        ensures
            match self.spec_entry().content {
                Content::Bytes(offset) => if offset + self.spec_entry().size
                    <= self.spec_table().content@.len() {
                    r is Some && r->0@ == self.spec_table().content@.subrange(
                        offset as int,
                        offset + self.spec_entry().size,
                    )
                } else {
                    r is None
                },
                _ => r is None,
            },
    {
        match self.entry.content {
            Content::Bytes(offset) => {
                let start = offset as usize;
                let len = self.table.content.len();
                if start > len || self.entry.size > (len - start) as u64 {
                    None
                } else {
                    let end = start + self.entry.size as usize;
                    Some(vstd::slice::slice_subrange(self.table.content.as_slice(), start, end))
                }
            },
            _ => None,
        }
    }

    pub fn digest(&self) -> (r: Option<u128>)
        ensures
            r == self.spec_entry().digest,
    {
        self.entry.digest
    }
}




/// A longer prefix has at least as many segments.
proof fn lemma_total_segments_monotone(items: Seq<ScannedItem>, k: int)
    requires
        0 <= k <= items.len(),
    ensures
        total_segments(items.take(k)) <= total_segments(items),
    decreases items.len() - k,
{
    if k < items.len() {
        lemma_total_segments_take(items, k);
        lemma_total_segments_monotone(items, k + 1);
    } else {
        assert(items.take(k) =~= items);
    }
}


/// The path indices of `s`, in order.
pub open spec fn path_indices(s: Seq<Entry>) -> Seq<u32> {
    s.map_values(|e: Entry| e.path)
}

/// A sorted table holds each path once, so it has as many entries as it
/// has distinct paths.
proof fn lemma_sorted_count(t: Table)
    requires
        t.wf(),
    ensures
        path_indices(t.entries@).no_duplicates(),
        path_indices(t.entries@).to_set() == Set::new(|p: u32| has_path(t.entries@, p)),
        t.entries@.len() == path_indices(t.entries@).to_set().len(),
{
    let ps = path_indices(t.entries@);
    assert forall|i: int, j: int| 0 <= i < ps.len() && 0 <= j < ps.len() && i != j implies ps[i]
        != ps[j] by {
        let (a, b) = if i < j {
            (i, j)
        } else {
            (j, i)
        };
        assert(path_lt(t.paths, t.entries[a].path, t.entries[b].path));
        lemma_index_order(t.paths, t.entries[a].path, t.entries[a].path, t.entries[a].path);
    }
    assert forall|p: u32| ps.to_set().contains(p) <==> #[trigger] has_path(t.entries@, p) by {
        if has_path(t.entries@, p) {
            let k = choose|k: int| 0 <= k < t.entries@.len() && (#[trigger] t.entries@[k]).path == p;
            assert(ps[k] == p);
        }
    }
    assert(ps.to_set() =~= Set::new(|p: u32| has_path(t.entries@, p)));
    ps.unique_seq_to_set();
}

/// Ingesting a tree a second time, with the same paths as the first scan,
/// leaves the table with the same paths and the same number of entries; the
/// entries of the second scan replace those of the first.
pub proof fn law_rescan_keeps_paths(
    t0: Seq<Entry>,
    first: Seq<Entry>,
    t1: Table,
    second: Seq<Entry>,
    t2: Table,
)
    requires
        t1.wf(),
        t2.wf(),
        merge_result(t0, first, t1.entries@),
        merge_result(t1.entries@, second, t2.entries@),
        forall|p: u32| #[trigger] has_path(second, p) <==> has_path(first, p),
    ensures
        forall|p: u32| #[trigger] has_path(t2.entries@, p) <==> has_path(t1.entries@, p),
        t2.entries@.len() == t1.entries@.len(),
        forall|k: int|
            0 <= k < t2.entries@.len() && has_path(second, (#[trigger] t2.entries@[k]).path)
                ==> second.contains(t2.entries@[k]),
{
    assert forall|p: u32| #[trigger] has_path(t2.entries@, p) <==> has_path(t1.entries@, p) by {
        if has_path(second, p) {
            assert(has_path(first, p));
        }
    }
    lemma_sorted_count(t1);
    lemma_sorted_count(t2);
    assert(Set::new(|p: u32| has_path(t2.entries@, p)) =~= Set::new(|p: u32| has_path(t1.entries@, p)));
}

} // verus!
