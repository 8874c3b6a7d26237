//! The session around a table: where the tree is, where its table is kept
//! between runs, and the figures reported about it.
use crate::table::{Entry, Table};
use vstd::prelude::*;

verus! {

/// Sets up a session on the tree under `root`, optionally keeping its table
/// in a file between runs.
pub struct DedupBuilder {
    root: String,
    digest_file: Option<String>,
}

/// What to do once the stored table has been asked for.
#[derive(Clone, Copy, Debug, PartialEq, Eq, Structural)]
pub enum BuildStep {
    /// The stored table was read: use it.
    UseStored,
    /// Scan the tree, then save the table to the digest file.
    ScanAndSave,
    /// Scan the tree; there is no file to save to.
    Scan,
}

impl DedupBuilder {
    pub closed spec fn spec_root(&self) -> Seq<char> {
        self.root@
    }

    pub closed spec fn spec_digest_file(&self) -> Option<String> {
        self.digest_file
    }

    pub fn new(root: String) -> (r: DedupBuilder)
        ensures
            r.spec_root() == root@,
            r.spec_digest_file() is None,
    {
        DedupBuilder { root, digest_file: None }
    }

    pub fn with_digest_file(&mut self, digest_file: String) -> (r: &mut Self)
        ensures
            r.spec_digest_file() == Some(digest_file),
            r.spec_root() == old(self).spec_root(),
            *final(self) == *final(r),
    {
        self.digest_file = Some(digest_file);
        self
    }

    pub fn root(&self) -> (r: &String)
        ensures
            r@ == self.spec_root(),
    {
        &self.root
    }

    pub fn digest_file(&self) -> (r: Option<&String>)
        ensures
            r is Some <==> self.spec_digest_file() is Some,
            r is Some ==> *r->0 == self.spec_digest_file()->0,
    {
        match &self.digest_file {
            Some(f) => Some(f),
            None => None,
        }
    }

    /// Decides, once reading the stored table has succeeded or not, whether
    /// to use it, or to scan and save the new table where a digest file is
    /// set. A table that cannot be read is no error: the tree is scanned.
    pub fn next_step(&self, stored_loaded: bool) -> (r: BuildStep)
        ensures
            stored_loaded ==> r == BuildStep::UseStored,
            !stored_loaded && self.spec_digest_file() is Some ==> r == BuildStep::ScanAndSave,
            !stored_loaded && self.spec_digest_file() is None ==> r == BuildStep::Scan,
    {
        if stored_loaded {
            BuildStep::UseStored
        } else if self.digest_file.is_some() {
            BuildStep::ScanAndSave
        } else {
            BuildStep::Scan
        }
    }

    /// The session over `table`, which was read or scanned for this builder.
    pub fn build(&self, table: Table) -> (r: Dedup)
        ensures
            r.root@ == self.spec_root(),
            r.digest_file == self.spec_digest_file(),
            r.table == table,
    {
        Dedup { root: self.root.clone(), digest_file: self.digest_file.clone(), table }
    }
}

/// A session: the tree's root, its digest file, and its table.
pub struct Dedup {
    pub root: String,
    pub digest_file: Option<String>,
    pub table: Table,
}

/// The figures of `Dedup::stats`.
pub struct DedupStats {
    /// Entries in the table.
    pub file_count: usize,
    /// Bytes of the entries that are not directories.
    pub total_size: u128,
}

/// The bytes of the entries of `s` that are not directories.
pub open spec fn files_size(s: Seq<Entry>) -> nat
    decreases s.len(),
{
    if s.len() == 0 {
        0
    } else {
        files_size(s.drop_last()) + if s.last().flags.is_dir {
            0nat
        } else {
            s.last().size as nat
        }
    }
}

impl Dedup {
    /// Removing duplicates is not done by this library: the session is
    /// left as it is.
    pub fn dedup(&mut self)
        ensures
            *final(self) == *old(self),
    {
    }

    /// The number of entries and the bytes of the files among them.
    pub fn stats(&self) -> (r: DedupStats)
        ensures
            r.file_count == self.table.entries@.len(),
            r.total_size == files_size(self.table.entries@),
    {
        let mut size: u128 = 0;
        let mut k: usize = 0;
        while k < self.table.entries.len()
            invariant
                0 <= k <= self.table.entries.len(),
                size == files_size(self.table.entries@.take(k as int)),
                files_size(self.table.entries@.take(k as int)) <= k * 0xffff_ffff_ffff_ffff,
            decreases self.table.entries.len() - k,
        {
            let e = self.table.entries[k];
            proof {
                assert(self.table.entries@.take(k as int + 1).drop_last() =~= self.table.entries@.take(k as int));
                assert((k + 1) * 0xffff_ffff_ffff_ffff <= 0x1_0000_0000_0000_0000 * 0xffff_ffff_ffff_ffff)
                    by (nonlinear_arith)
                    requires
                        k < 0x1_0000_0000_0000_0000,
                ;
            }
            if !e.flags.is_dir {
                size = size + e.size as u128;
            }
            k += 1;
        }
        proof {
            assert(self.table.entries@.take(k as int) =~= self.table.entries@);
        }
        DedupStats { file_count: self.table.entries.len(), total_size: size }
    }

    /// Figures for the part of the tree under `dir` alone: not computed by
    /// this library, so the session is left as it is.
    pub fn stats_marginal(&self, dir: &str) {
    }
}

} // verus!
