//! Block identifiers: a (file name, block number) pair naming one
//! block-sized region of a named file.

use vstd::prelude::*;

verus! {

/// Identifies one fixed-size block within a named file. A value type: equal
/// when both the file name and the block number are equal.
#[derive(Debug)]
pub struct BlockId {
    filename: String,
    blknum: u64,
}

impl BlockId {
    pub fn new(filename: &str, blknum: u64) -> (b: Self)
        ensures
            b.spec_file() == filename@,
            b.spec_num() == blknum,
    {
        Self { filename: filename.to_owned(), blknum }
    }

    /// The file name component.
    pub closed spec fn spec_file(self) -> Seq<char> {
        self.filename@
    }

    /// The block number component.
    pub closed spec fn spec_num(self) -> u64 {
        self.blknum
    }

    /// Whether two identifiers name the same block: equal file name and
    /// equal block number.
    pub open spec fn spec_same(self, other: BlockId) -> bool {
        self.spec_file() == other.spec_file() && self.spec_num() == other.spec_num()
    }

    pub fn file_name(&self) -> (r: String)
        ensures
            r@ == self.spec_file(),
    {
        self.filename.clone()
    }

    pub fn number(&self) -> (r: u64)
        ensures
            r == self.spec_num(),
    {
        self.blknum
    }
}

impl Clone for BlockId {
    fn clone(&self) -> (r: Self)
        ensures
            r == *self,
    {
        let c = Self { filename: self.filename.clone(), blknum: self.blknum };
        c
    }
}

impl PartialEq for BlockId {
    fn eq(&self, other: &Self) -> (r: bool) {
        self.filename == other.filename && self.blknum == other.blknum
    }
}

impl Eq for BlockId {

}

impl vstd::std_specs::cmp::PartialEqSpecImpl for BlockId {
    open spec fn obeys_eq_spec() -> bool {
        true
    }

    open spec fn eq_spec(&self, other: &Self) -> bool {
        self.spec_file() == other.spec_file() && self.spec_num() == other.spec_num()
    }
}

} // verus!
