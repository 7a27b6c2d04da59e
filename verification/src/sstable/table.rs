//! The handle of a sorted table: where its files are and how hot it is.

use vstd::prelude::*;

verus! {

/// A sorted table on disk: its directory, its data and index files, and the
/// hotness that orders tables on the read path.
#[derive(Debug)]
pub struct Table {
    pub dir: String,
    pub data_file_path: String,
    pub index_file_path: String,
    pub hotness: u64,
    pub size: u64,
}

impl Clone for Table {
    fn clone(&self) -> (r: Self)
        ensures
            r == *self,
    {
        Table {
            dir: self.dir.clone(),
            data_file_path: self.data_file_path.clone(),
            index_file_path: self.index_file_path.clone(),
            hotness: self.hotness,
            size: self.size,
        }
    }
}

impl Table {
    /// A table in `dir` with the given data and index files, not read yet.
    pub fn new(dir: String, data_file_path: String, index_file_path: String) -> (r: Self)
        ensures
            r.dir == dir,
            r.data_file_path == data_file_path,
            r.index_file_path == index_file_path,
            r.hotness == 0,
            r.size == 0,
    {
        Table { dir, data_file_path, index_file_path, hotness: 0, size: 0 }
    }

    /// The path of the data file, by which a table is identified.
    pub fn get_data_file_path(&self) -> (r: String)
        ensures
            r == self.data_file_path,
    {
        self.data_file_path.clone()
    }

    /// How often the table has been read.
    pub fn get_hotness(&self) -> (r: u64)
        ensures
            r == self.hotness,
    {
        self.hotness
    }

    /// Counts one more read, saturating at the largest count.
    pub fn increase_hotness(&mut self)
        ensures
            final(self).hotness == if old(self).hotness == u64::MAX {
                u64::MAX
            } else {
                (old(self).hotness + 1) as u64
            },
            final(self).dir == old(self).dir,
            final(self).data_file_path == old(self).data_file_path,
            final(self).index_file_path == old(self).index_file_path,
            final(self).size == old(self).size,
    {
        if self.hotness < u64::MAX {
            self.hotness = self.hotness + 1;
        }
    }

    /// Whether both handles name the same table.
    pub fn same_table(&self, other: &Table) -> (r: bool)
        ensures
            r == (self.data_file_path@ == other.data_file_path@),
    {
        self.data_file_path == other.data_file_path
    }
}

} // verus!
