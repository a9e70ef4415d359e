//! The block store: a set of named files, each a byte array read and written
//! in fixed-size blocks.
//!
//! The manager holds the store contents themselves; an embedding program maps
//! them onto a real directory (loading files at start, writing them back).
//! Block `n` of a file occupies bytes `[n*blocksize, (n+1)*blocksize)`. Reads
//! of bytes past the end of a file yield zeroes; writes extend the file with
//! zeroes as far as needed. Every file's length is kept a multiple of the
//! block size.

use vstd::prelude::*;
use crate::errors::DbError;
use crate::file::block_id::BlockId;
use crate::file::page::Page;

verus! {

/// Whether the association list has an entry for `name`.
pub open spec fn assoc_has(l: Seq<(String, Vec<u8>)>, name: Seq<char>) -> bool
    decreases l.len(),
{
    l.len() > 0 && (l[0].0@ == name || assoc_has(l.drop_first(), name))
}

/// The bytes the association list holds for `name`; empty when absent.
pub open spec fn assoc_get(l: Seq<(String, Vec<u8>)>, name: Seq<char>) -> Seq<u8>
    decreases l.len(),
{
    if l.len() == 0 {
        Seq::empty()
    } else if l[0].0@ == name {
        l[0].1@
    } else {
        assoc_get(l.drop_first(), name)
    }
}

/// No two entries share a name.
pub open spec fn assoc_unique(l: Seq<(String, Vec<u8>)>) -> bool {
    forall|i: int, j: int| 0 <= i < j < l.len() ==> l[i].0@ != l[j].0@
}

proof fn lemma_assoc_at(l: Seq<(String, Vec<u8>)>, i: int)
    requires
        assoc_unique(l),
        0 <= i < l.len(),
    ensures
        assoc_has(l, l[i].0@),
        assoc_get(l, l[i].0@) == l[i].1@,
    decreases l.len(),
{
    if i > 0 {
        assert(l[0].0@ != l[i].0@);
        assert(l.drop_first()[i - 1] == l[i]);
        assert(assoc_unique(l.drop_first())) by {
            assert(forall|a: int, b: int| 0 <= a < b < l.drop_first().len()
                ==> l.drop_first()[a] == l[a + 1] && l.drop_first()[b] == l[b + 1]);
        }
        lemma_assoc_at(l.drop_first(), i - 1);
    }
}

proof fn lemma_assoc_absent(l: Seq<(String, Vec<u8>)>, name: Seq<char>)
    requires
        forall|i: int| 0 <= i < l.len() ==> l[i].0@ != name,
    ensures
        !assoc_has(l, name),
        assoc_get(l, name) == Seq::<u8>::empty(),
    decreases l.len(),
{
    if l.len() > 0 {
        assert(forall|i: int| 0 <= i < l.drop_first().len() ==> l.drop_first()[i] == l[i + 1]);
        lemma_assoc_absent(l.drop_first(), name);
    }
}

proof fn lemma_assoc_update(l: Seq<(String, Vec<u8>)>, i: int, v: (String, Vec<u8>), name: Seq<char>)
    requires
        assoc_unique(l),
        0 <= i < l.len(),
        v.0@ == l[i].0@,
    ensures
        assoc_has(l.update(i, v), name) == assoc_has(l, name),
        name == l[i].0@ ==> assoc_get(l.update(i, v), name) == v.1@,
        name != l[i].0@ ==> assoc_get(l.update(i, v), name) == assoc_get(l, name),
    decreases l.len(),
{
    let lu = l.update(i, v);
    if i == 0 {
        assert(lu[0] == v);
        assert(lu.drop_first() =~= l.drop_first());
    } else {
        assert(lu[0] == l[0]);
        assert(lu.drop_first() =~= l.drop_first().update(i - 1, v));
        assert(assoc_unique(l.drop_first())) by {
            assert(forall|a: int, b: int| 0 <= a < b < l.drop_first().len()
                ==> l.drop_first()[a] == l[a + 1] && l.drop_first()[b] == l[b + 1]);
        }
        assert(l.drop_first()[i - 1] == l[i]);
        lemma_assoc_update(l.drop_first(), i - 1, v, name);
    }
}

proof fn lemma_assoc_push(l: Seq<(String, Vec<u8>)>, v: (String, Vec<u8>), name: Seq<char>)
    requires
        forall|i: int| 0 <= i < l.len() ==> l[i].0@ != v.0@,
    ensures
        assoc_has(l.push(v), name) == (assoc_has(l, name) || name == v.0@),
        name == v.0@ ==> assoc_get(l.push(v), name) == v.1@,
        name != v.0@ ==> assoc_get(l.push(v), name) == assoc_get(l, name),
    decreases l.len(),
{
    let lp = l.push(v);
    if l.len() == 0 {
        assert(lp[0] == v);
        assert(lp.drop_first() =~= Seq::<(String, Vec<u8>)>::empty());
        assert(!assoc_has(lp.drop_first(), name));
        assert(assoc_get(lp.drop_first(), name) == Seq::<u8>::empty());
        assert(assoc_get(l, name) == Seq::<u8>::empty());
        assert(!assoc_has(l, name));
    } else {
        assert(lp[0] == l[0]);
        assert(lp.drop_first() =~= l.drop_first().push(v));
        assert(forall|i: int| 0 <= i < l.drop_first().len() ==> l.drop_first()[i] == l[i + 1]);
        lemma_assoc_push(l.drop_first(), v, name);
        if name == v.0@ {
            lemma_assoc_absent(l, name);
        }
    }
}

proof fn lemma_assoc_get_entry(l: Seq<(String, Vec<u8>)>, name: Seq<char>)
    ensures
        assoc_has(l, name) ==> exists|i: int| 0 <= i < l.len() && #[trigger] l[i].0@ == name
            && assoc_get(l, name) == l[i].1@,
        !assoc_has(l, name) ==> assoc_get(l, name) == Seq::<u8>::empty(),
    decreases l.len(),
{
    if l.len() > 0 {
        if l[0].0@ == name {
            assert(0 <= 0 < l.len() && l[0].0@ == name && assoc_get(l, name) == l[0].1@);
        } else {
            lemma_assoc_get_entry(l.drop_first(), name);
            if assoc_has(l, name) {
                let i = choose|i: int| 0 <= i < l.drop_first().len()
                    && #[trigger] l.drop_first()[i].0@ == name && assoc_get(
                    l.drop_first(),
                    name,
                ) == l.drop_first()[i].1@;
                assert(l[i + 1].0@ == name && assoc_get(l, name) == l[i + 1].1@);
            }
        }
    }
}

/// The zero-padded bytes of block `n` of a file.
pub open spec fn spec_block_of(file: Seq<u8>, n: int, bs: int) -> Seq<u8> {
    Seq::new(bs as nat, |i: int| if 0 <= n * bs + i < file.len() {
        file[n * bs + i]
    } else {
        0u8
    })
}

/// The file after block `n` is overwritten with `b`, extended with zeroes as
/// far as the write requires.
pub open spec fn spec_write_block(file: Seq<u8>, n: int, bs: int, b: Seq<u8>) -> Seq<u8> {
    let len = if file.len() >= (n + 1) * bs {
        file.len() as int
    } else {
        (n + 1) * bs
    };
    Seq::new(len as nat, |i: int| if n * bs <= i < (n + 1) * bs {
        b[i - n * bs]
    } else if i < file.len() {
        file[i]
    } else {
        0u8
    })
}

/// Writing a block and reading it back yields the bytes written.
pub proof fn lemma_block_roundtrip(file: Seq<u8>, n: int, bs: int, b: Seq<u8>)
    requires
        bs >= 1,
        0 <= n,
        b.len() == bs,
    ensures
        spec_block_of(spec_write_block(file, n, bs, b), n, bs) == b,
{
    assert(n * bs >= 0) by (nonlinear_arith)
        requires 0 <= n && bs >= 1,
    ;
    assert((n + 1) * bs == n * bs + bs) by (nonlinear_arith);
    assert(spec_block_of(spec_write_block(file, n, bs, b), n, bs) =~= b);
}

/// Reading any block of a file that does not reach it yields zeroes; in
/// particular every block of an absent (empty) file reads as zeroes.
pub proof fn lemma_block_fresh(file: Seq<u8>, n: int, bs: int)
    requires
        bs >= 1,
        0 <= n,
        file.len() <= n * bs,
    ensures
        spec_block_of(file, n, bs) == Seq::new(bs as nat, |i: int| 0u8),
{
    assert(spec_block_of(file, n, bs) =~= Seq::new(bs as nat, |i: int| 0u8));
}

/// Writing block `n` leaves every other block of the file unchanged.
pub proof fn lemma_block_frame(file: Seq<u8>, n: int, bs: int, b: Seq<u8>, m: int)
    requires
        bs >= 1,
        0 <= n,
        0 <= m,
        m != n,
        b.len() == bs,
    ensures
        spec_block_of(spec_write_block(file, n, bs, b), m, bs) == spec_block_of(file, m, bs),
{
    assert((n + 1) * bs == n * bs + bs) by (nonlinear_arith);
    let w = spec_write_block(file, n, bs, b);
    assert forall|i: int| 0 <= i < bs implies #[trigger] spec_block_of(w, m, bs)[i]
        == spec_block_of(file, m, bs)[i] by {
        if m < n {
            assert((m + 1) * bs <= n * bs) by (nonlinear_arith)
                requires m < n && bs >= 1,
            ;
            assert((m + 1) * bs == m * bs + bs) by (nonlinear_arith);
        } else {
            assert((n + 1) * bs <= m * bs) by (nonlinear_arith)
                requires n < m && bs >= 1,
            ;
        }
    }
    assert(spec_block_of(w, m, bs) =~= spec_block_of(file, m, bs));
}

/// The block store. Construction parameters are the block size and whether
/// the backing directory was newly created.
pub struct FileMgr {
    blocksize: usize,
    is_new: bool,
    files: Vec<(String, Vec<u8>)>,
}

impl FileMgr {
    pub closed spec fn spec_blocksize(self) -> int {
        self.blocksize as int
    }

    pub closed spec fn spec_is_new(self) -> bool {
        self.is_new
    }

    pub closed spec fn has_file(self, name: Seq<char>) -> bool {
        assoc_has(self.files@, name)
    }

    /// The bytes of the named file; absent files read as empty.
    pub closed spec fn file_of(self, name: Seq<char>) -> Seq<u8> {
        assoc_get(self.files@, name)
    }

    /// The names of the files in the store, in insertion order.
    pub closed spec fn spec_names(self) -> Seq<Seq<char>> {
        Seq::new(self.files@.len(), |i: int| self.files@[i].0@)
    }

    pub closed spec fn wf(self) -> bool {
        &&& self.blocksize >= 1
        &&& assoc_unique(self.files@)
        &&& forall|i: int| 0 <= i < self.files@.len() ==> #[trigger] self.files@[i].1@.len() as int
            % self.spec_blocksize() == 0
    }

    /// Every stored file's byte length is a whole number of blocks and fits
    /// the machine.
    pub proof fn lemma_file_len(self, name: Seq<char>)
        requires
            self.wf(),
        ensures
            self.file_of(name).len() as int % self.spec_blocksize() == 0,
            self.file_of(name).len() <= usize::MAX,
    {
        lemma_assoc_get_entry(self.files@, name);
        if assoc_has(self.files@, name) {
            let i = choose|i: int| 0 <= i < self.files@.len() && #[trigger] self.files@[i].0@
                == name && assoc_get(self.files@, name) == self.files@[i].1@;
            vstd::std_specs::vec::axiom_spec_len(&self.files@[i].1);
        } else {
            assert(0 as int % self.spec_blocksize() == 0) by (nonlinear_arith)
                requires self.spec_blocksize() >= 1,
            ;
        }
    }

    /// The number of blocks of the named file.
    pub open spec fn spec_nblocks(self, name: Seq<char>) -> int {
        self.file_of(name).len() as int / self.spec_blocksize()
    }

    /// The zero-padded bytes of block `n` of the named file.
    pub open spec fn spec_block_at(self, name: Seq<char>, n: int) -> Seq<u8> {
        spec_block_of(self.file_of(name), n, self.spec_blocksize())
    }

    pub fn new(blocksize: usize, is_new: bool) -> (r: Self)
        requires
            blocksize >= 1,
        ensures
            r.wf(),
            r.spec_blocksize() == blocksize,
            r.spec_is_new() == is_new,
            forall|name: Seq<char>| !(#[trigger] r.has_file(name)),
            forall|name: Seq<char>| #[trigger] r.file_of(name) == Seq::<u8>::empty(),
    {
        let r = Self { blocksize, is_new, files: Vec::new() };
        proof {
            assert forall|name: Seq<char>| !(#[trigger] r.has_file(name)) && r.file_of(name)
                == Seq::<u8>::empty() by {
                lemma_assoc_absent(r.files@, name);
            }
        }
        r
    }

    /// The index of the named file's entry, if it has one.
    fn find_file(&self, filename: &str) -> (r: Option<usize>)
        ensures
            match r {
                Some(i) => i < self.files@.len() && self.files@[i as int].0@ == filename@,
                None => forall|i: int| 0 <= i < self.files@.len() ==> self.files@[i].0@
                    != filename@,
            },
    {
        let mut i: usize = 0;
        let n = self.files.len();
        while i < n
            invariant
                i <= n,
                n == self.files@.len(),
                forall|j: int| 0 <= j < i ==> self.files@[j].0@ != filename@,
            decreases n - i,
        {
            if str_eq(self.files[i].0.as_str(), filename) {
                return Some(i);
            }
            i = i + 1;
        }
        None
    }

    /// The index of the named file's entry, an empty entry being added first
    /// when there is none.
    fn ensure_file(&mut self, filename: &str) -> (r: usize)
        requires
            old(self).wf(),
        ensures
            final(self).wf(),
            final(self).spec_blocksize() == old(self).spec_blocksize(),
            final(self).spec_is_new() == old(self).spec_is_new(),
            r < final(self).files@.len(),
            final(self).files@[r as int].0@ == filename@,
            final(self).file_of(filename@) == old(self).file_of(filename@),
            forall|m: Seq<char>| #[trigger] final(self).file_of(m) == old(self).file_of(m),
            forall|m: Seq<char>| m != filename@ ==> #[trigger] final(self).has_file(m) == old(
                self,
            ).has_file(m),
    {
        match self.find_file(filename) {
            Some(i) => i,
            None => {
                let i = self.files.len();
                let ghost pre = self.files@;
                let entry = (filename.to_owned(), Vec::<u8>::new());
                self.files.push(entry);
                proof {
                    assert forall|m: Seq<char>| #[trigger] self.file_of(m) == old(self).file_of(
                        m,
                    ) by {
                        lemma_assoc_push(pre, self.files@[i as int], m);
                        if m == filename@ {
                            lemma_assoc_absent(pre, m);
                        }
                    }
                    assert forall|m: Seq<char>| m != filename@ implies #[trigger] self.has_file(m)
                        == old(self).has_file(m) by {
                        lemma_assoc_push(pre, self.files@[i as int], m);
                    }
                    assert(assoc_unique(self.files@)) by {
                        assert(forall|a: int| 0 <= a < pre.len() ==> self.files@[a] == pre[a]);
                    }
                    assert(forall|a: int| 0 <= a < pre.len() ==> self.files@[a] == pre[a]);
                    assert(self.files@[i as int].1@.len() as int % self.spec_blocksize() == 0)
                        by (nonlinear_arith)
                        requires self.files@[i as int].1@.len() == 0 && self.spec_blocksize() >= 1,
                    ;
                }
                i
            },
        }
    }

    /// Reads block `blk` into `p`, zero-filling bytes the file does not
    /// reach. The store itself is unchanged.
    pub fn read(&self, blk: &BlockId, p: &mut Page) -> (r: Result<(), DbError>)
        requires
            self.wf(),
            old(p)@.len() == self.spec_blocksize(),
        ensures
            r == Ok::<(), DbError>(()),
            final(p)@ == self.spec_block_at(blk.spec_file(), blk.spec_num() as int),
    {
        let bs = self.blocksize;
        let name = blk.file_name();
        match self.find_file(name.as_str()) {
            Some(idx) => {
                proof {
                    lemma_assoc_at(self.files@, idx as int);
                }
                let f: &Vec<u8> = &self.files[idx].1;
                let nblocks = f.len() / bs;
                let n64 = blk.number();
                if n64 >= (nblocks as u64) {
                    proof {
                        assert(self.file_of(blk.spec_file()).len() <= blk.spec_num()
                            * self.spec_blocksize()) by (nonlinear_arith)
                            requires
                                self.spec_blocksize() >= 1,
                                self.file_of(blk.spec_file()).len() as int % self.spec_blocksize() == 0,
                                self.file_of(blk.spec_file()).len() as int / self.spec_blocksize()
                                    <= blk.spec_num(),
                        ;
                    }
                    fill_zero(p, bs);
                    proof {
                        lemma_block_fresh(
                            self.file_of(blk.spec_file()),
                            blk.spec_num() as int,
                            self.spec_blocksize(),
                        );
                    }
                    return Ok(());
                }
                let n = n64 as usize;
                proof {
                    assert(n * bs + bs <= f@.len()) by (nonlinear_arith)
                        requires
                            bs >= 1,
                            f@.len() as int % (bs as int) == 0,
                            0 <= n < f@.len() as int / (bs as int),
                    ;
                }
                let start = n * bs;
                copy_range(p, f, start, bs);
                proof {
                    assert(p@ =~= self.spec_block_at(blk.spec_file(), blk.spec_num() as int));
                }
                Ok(())
            },
            None => {
                proof {
                    lemma_assoc_absent(self.files@, blk.spec_file());
                }
                fill_zero(p, bs);
                proof {
                    lemma_block_fresh(
                        self.file_of(blk.spec_file()),
                        blk.spec_num() as int,
                        self.spec_blocksize(),
                    );
                }
                Ok(())
            },
        }
    }

    /// Writes `p` as block `blk`, extending the file with zeroes as far as
    /// the write requires. Fails only when the store cannot address the
    /// block.
    pub fn write(&mut self, blk: &BlockId, p: &Page) -> (r: Result<(), DbError>)
        requires
            old(self).wf(),
            p@.len() == old(self).spec_blocksize(),
        ensures
            final(self).wf(),
            final(self).spec_blocksize() == old(self).spec_blocksize(),
            final(self).spec_is_new() == old(self).spec_is_new(),
            blk.spec_num() < usize::MAX as int / old(self).spec_blocksize() ==> {
                &&& r == Ok::<(), DbError>(())
                &&& final(self).file_of(blk.spec_file()) == spec_write_block(
                    old(self).file_of(blk.spec_file()),
                    blk.spec_num() as int,
                    old(self).spec_blocksize(),
                    p@,
                )
                &&& final(self).has_file(blk.spec_file())
                &&& forall|m: Seq<char>| m != blk.spec_file() ==> #[trigger] final(self).file_of(
                    m,
                ) == old(self).file_of(m)
                &&& forall|m: Seq<char>| m != blk.spec_file() ==> #[trigger] final(self).has_file(
                    m,
                ) == old(self).has_file(m)
            },
            blk.spec_num() >= usize::MAX as int / old(self).spec_blocksize() ==> {
                &&& r == Err::<(), DbError>(DbError::FileAccessFailed)
                &&& *final(self) == *old(self)
            },
    {
        let bs = self.blocksize;
        let maxblocks = usize::MAX / bs;
        if blk.number() >= (maxblocks as u64) {
            return Err(DbError::FileAccessFailed);
        }
        let n = blk.number() as usize;
        proof {
            assert((n + 1) * (bs as int) <= usize::MAX as int) by (nonlinear_arith)
                requires
                    bs >= 1,
                    0 <= n < usize::MAX as int / (bs as int),
            ;
        }
        let name = blk.file_name();
        let idx = self.ensure_file(name.as_str());
        let ghost pre = self.files@;
        let ghost mid = *self;
        let ghost oldfile = self.file_of(blk.spec_file());
        proof {
            lemma_assoc_at(self.files@, idx as int);
        }
        let mut entry = self.files.remove(idx);
        let target = (n + 1) * bs;
        while entry.1.len() < target
            invariant
                target <= usize::MAX,
                oldfile.len() <= target ==> entry.1@.len() <= target && entry.1@ == oldfile
                    + Seq::new((entry.1@.len() - oldfile.len()) as nat, |i: int| 0u8),
                oldfile.len() > target ==> entry.1@ == oldfile,
                entry.0@ == blk.spec_file(),
            decreases target - entry.1@.len(),
        {
            proof {
                if oldfile.len() <= target {
                    assert(entry.1@.push(0u8) =~= oldfile + Seq::new(
                        (entry.1@.len() + 1 - oldfile.len()) as nat,
                        |i: int| 0u8,
                    ));
                }
            }
            entry.1.push(0u8);
        }
        proof {
            assert(0 <= n * (bs as int) && n * (bs as int) + bs == (n + 1) * (bs as int))
                by (nonlinear_arith)
                requires
                    bs >= 1,
                    n >= 0,
            ;
        }
        let start = n * bs;
        let ghost flen = entry.1@.len() as int;
        let ghost padded = Seq::new(flen as nat, |i: int| if i < oldfile.len() {
            oldfile[i]
        } else {
            0u8
        });
        proof {
            assert(entry.1@ =~= padded);
        }
        let pb = p.contents();
        let mut j: usize = 0;
        while j < bs
            invariant
                j <= bs,
                start + bs <= flen,
                entry.1@.len() == flen <= usize::MAX,
                padded.len() == flen,
                pb@.len() == bs,
                pb@ == p@,
                entry.0@ == blk.spec_file(),
                forall|k: int| start <= k < start + j ==> entry.1@[k] == p@[k - start],
                forall|k: int| 0 <= k < flen && !(start <= k < start + j) ==> entry.1@[k]
                    == padded[k],
            decreases bs - j,
        {
            entry.1[start + j] = pb[j];
            j = j + 1;
        }
        proof {
            let wspec = spec_write_block(oldfile, n as int, bs as int, p@);
            assert(entry.1@.len() == wspec.len());
            assert forall|k: int| 0 <= k < flen implies entry.1@[k] == wspec[k] by {
                if start <= k < start + bs {
                    assert(entry.1@[k] == p@[k - start]);
                } else {
                    assert(entry.1@[k] == padded[k]);
                }
            }
            assert(entry.1@ =~= wspec);
            assert(flen % (bs as int) == 0) by (nonlinear_arith)
                requires
                    bs >= 1,
                    oldfile.len() as int % (bs as int) == 0,
                    target == (n + 1) * (bs as int),
                    flen == if oldfile.len() >= target {
                        oldfile.len() as int
                    } else {
                        target as int
                    },
            ;
        }
        let ghost newentry = entry;
        self.files.insert(idx, entry);
        proof {
            assert(self.files@ =~= pre.update(idx as int, newentry));
            assert forall|m: Seq<char>| m != blk.spec_file() implies #[trigger] self.file_of(m)
                == old(self).file_of(m) by {
                lemma_assoc_update(pre, idx as int, newentry, m);
                assert(mid.file_of(m) == old(self).file_of(m));
            }
            assert forall|m: Seq<char>| m != blk.spec_file() implies #[trigger] self.has_file(m)
                == old(self).has_file(m) by {
                lemma_assoc_update(pre, idx as int, newentry, m);
                assert(mid.has_file(m) == old(self).has_file(m));
            }
            lemma_assoc_update(pre, idx as int, newentry, blk.spec_file());
            lemma_assoc_at(self.files@, idx as int);
            assert(assoc_unique(self.files@));
            assert forall|i: int| 0 <= i < self.files@.len() implies #[trigger] self.files@[i].1@.len() as int
                % self.spec_blocksize() == 0 by {
                if i != idx as int {
                    assert(self.files@[i] == pre[i]);
                }
            }
        }
        Ok(())
    }

    /// Extends the named file by one zeroed block and returns its id. The new
    /// block's number is the file's old block count.
    pub fn append(&mut self, filename: &str) -> (r: Result<BlockId, DbError>)
        requires
            old(self).wf(),
        ensures
            final(self).wf(),
            final(self).spec_blocksize() == old(self).spec_blocksize(),
            final(self).spec_is_new() == old(self).spec_is_new(),
            old(self).file_of(filename@).len() + old(self).spec_blocksize() <= usize::MAX ==> {
                &&& r matches Ok(b) && b.spec_file() == filename@ && b.spec_num() == old(
                    self,
                ).spec_nblocks(filename@)
                &&& final(self).file_of(filename@) == old(self).file_of(filename@) + Seq::new(
                    old(self).spec_blocksize() as nat,
                    |i: int| 0u8,
                )
                &&& final(self).has_file(filename@)
                &&& forall|m: Seq<char>| m != filename@ ==> #[trigger] final(self).file_of(m)
                    == old(self).file_of(m)
                &&& forall|m: Seq<char>| m != filename@ ==> #[trigger] final(self).has_file(m)
                    == old(self).has_file(m)
            },
            old(self).file_of(filename@).len() + old(self).spec_blocksize() > usize::MAX ==> {
                &&& r == Err::<BlockId, DbError>(DbError::FileAccessFailed)
                &&& final(self).file_of(filename@) == old(self).file_of(filename@)
                &&& forall|m: Seq<char>| #[trigger] final(self).file_of(m) == old(self).file_of(m)
                &&& forall|m: Seq<char>| m != filename@ ==> #[trigger] final(self).has_file(m)
                    == old(self).has_file(m)
            },
    {
        let bs = self.blocksize;
        let idx = self.ensure_file(filename);
        let ghost pre = self.files@;
        let ghost mid = *self;
        let ghost oldfile = self.file_of(filename@);
        proof {
            lemma_assoc_at(self.files@, idx as int);
        }
        if self.files[idx].1.len() > usize::MAX - bs {
            return Err(DbError::FileAccessFailed);
        }
        let mut entry = self.files.remove(idx);
        let newblknum = entry.1.len() / bs;
        let target = entry.1.len() + bs;
        while entry.1.len() < target
            invariant
                oldfile.len() <= entry.1@.len() <= target <= usize::MAX,
                entry.1@ == oldfile + Seq::new((entry.1@.len() - oldfile.len()) as nat, |i: int| 0u8),
                entry.0@ == filename@,
                target == oldfile.len() + bs,
            decreases target - entry.1@.len(),
        {
            proof {
                assert(entry.1@.push(0u8) =~= oldfile + Seq::new(
                    (entry.1@.len() + 1 - oldfile.len()) as nat,
                    |i: int| 0u8,
                ));
            }
            entry.1.push(0u8);
        }
        proof {
            assert((oldfile.len() as int + bs) % (bs as int) == 0) by (nonlinear_arith)
                requires
                    bs >= 1,
                    oldfile.len() as int % (bs as int) == 0,
            ;
        }
        let ghost newentry = entry;
        self.files.insert(idx, entry);
        proof {
            assert(self.files@ =~= pre.update(idx as int, newentry));
            assert forall|m: Seq<char>| m != filename@ implies #[trigger] self.file_of(m) == old(
                self,
            ).file_of(m) by {
                lemma_assoc_update(pre, idx as int, newentry, m);
                assert(mid.file_of(m) == old(self).file_of(m));
            }
            assert forall|m: Seq<char>| m != filename@ implies #[trigger] self.has_file(m) == old(
                self,
            ).has_file(m) by {
                lemma_assoc_update(pre, idx as int, newentry, m);
                assert(mid.has_file(m) == old(self).has_file(m));
            }
            lemma_assoc_update(pre, idx as int, newentry, filename@);
            lemma_assoc_at(self.files@, idx as int);
            assert(assoc_unique(self.files@));
            assert forall|i: int| 0 <= i < self.files@.len() implies #[trigger] self.files@[i].1@.len() as int
                % self.spec_blocksize() == 0 by {
                if i != idx as int {
                    assert(self.files@[i] == pre[i]);
                }
            }
            assert(newentry.1@ =~= oldfile + Seq::new(bs as nat, |i: int| 0u8));
            assert(newblknum == oldfile.len() as int / (bs as int));
        }
        Ok(BlockId::new(filename, newblknum as u64))
    }

    /// The named file's length in blocks.
    pub fn length(&self, filename: &str) -> (r: Result<u64, DbError>)
        requires
            self.wf(),
        ensures
            r matches Ok(n) && n == self.spec_nblocks(filename@),
    {
        match self.find_file(filename) {
            Some(idx) => {
                proof {
                    lemma_assoc_at(self.files@, idx as int);
                }
                Ok((self.files[idx].1.len() / self.blocksize) as u64)
            },
            None => {
                proof {
                    lemma_assoc_absent(self.files@, filename@);
                    assert(Seq::<u8>::empty().len() as int / self.spec_blocksize() == 0)
                        by (nonlinear_arith)
                        requires self.spec_blocksize() >= 1,
                    ;
                }
                Ok(0)
            },
        }
    }

    pub fn blocksize(&self) -> (r: usize)
        ensures
            r == self.spec_blocksize(),
    {
        self.blocksize
    }

    pub fn is_new(&self) -> (r: bool)
        ensures
            r == self.spec_is_new(),
    {
        self.is_new
    }

    /// The contents of `content` zero-padded to a whole number of blocks: how
    /// a file handed to [`FileMgr::install_file`] is stored.
    pub open spec fn spec_padded(self, content: Seq<u8>) -> Seq<u8> {
        if content.len() as int % self.spec_blocksize() == 0 {
            content
        } else {
            content + Seq::new(
                (self.spec_blocksize() - content.len() as int % self.spec_blocksize()) as nat,
                |i: int| 0u8,
            )
        }
    }

    /// Installs a whole file, replacing any previous contents; the bytes are
    /// zero-padded to a block boundary. This is how an embedding program
    /// hands the kernel what it found on disk.
    pub fn install_file(&mut self, filename: &str, content: Vec<u8>) -> (r: Result<(), DbError>)
        requires
            old(self).wf(),
        ensures
            final(self).wf(),
            final(self).spec_blocksize() == old(self).spec_blocksize(),
            final(self).spec_is_new() == old(self).spec_is_new(),
            content@.len() + old(self).spec_blocksize() <= usize::MAX ==> {
                &&& r == Ok::<(), DbError>(())
                &&& final(self).file_of(filename@) == old(self).spec_padded(content@)
                &&& final(self).has_file(filename@)
                &&& forall|m: Seq<char>| m != filename@ ==> #[trigger] final(self).file_of(m)
                    == old(self).file_of(m)
                &&& forall|m: Seq<char>| m != filename@ ==> #[trigger] final(self).has_file(m)
                    == old(self).has_file(m)
            },
            content@.len() + old(self).spec_blocksize() > usize::MAX ==> {
                &&& r == Err::<(), DbError>(DbError::FileAccessFailed)
                &&& forall|m: Seq<char>| #[trigger] final(self).file_of(m) == old(self).file_of(m)
            },
    {
        let bs = self.blocksize;
        if content.len() > usize::MAX - bs {
            return Err(DbError::FileAccessFailed);
        }
        let mut padded = content;
        let ghost raw = padded@;
        let rem = padded.len() % bs;
        if rem != 0 {
            let pad = bs - rem;
            let mut k: usize = 0;
            while k < pad
                invariant
                    k <= pad,
                    pad <= bs,
                    raw.len() + bs <= usize::MAX,
                    padded@ == raw + Seq::new(k as nat, |i: int| 0u8),
                decreases pad - k,
            {
                proof {
                    assert(padded@.push(0u8) =~= raw + Seq::new((k + 1) as nat, |i: int| 0u8));
                }
                padded.push(0u8);
                k = k + 1;
            }
            proof {
                assert(padded@ =~= self.spec_padded(raw));
            }
        } else {
            proof {
                assert(padded@ =~= self.spec_padded(raw));
            }
        }
        proof {
            assert(padded@.len() as int % (bs as int) == 0) by (nonlinear_arith)
                requires
                    bs >= 1,
                    padded@.len() as int == if raw.len() as int % (bs as int) == 0 {
                        raw.len() as int
                    } else {
                        raw.len() + (bs - raw.len() as int % (bs as int))
                    },
            ;
        }
        let idx = self.ensure_file(filename);
        let ghost pre = self.files@;
        let ghost mid = *self;
        proof {
            lemma_assoc_at(self.files@, idx as int);
        }
        let mut entry = self.files.remove(idx);
        entry.1 = padded;
        let ghost newentry = entry;
        self.files.insert(idx, entry);
        proof {
            assert(self.files@ =~= pre.update(idx as int, newentry));
            assert forall|m: Seq<char>| m != filename@ implies #[trigger] self.file_of(m) == old(
                self,
            ).file_of(m) by {
                lemma_assoc_update(pre, idx as int, newentry, m);
                assert(mid.file_of(m) == old(self).file_of(m));
            }
            assert forall|m: Seq<char>| m != filename@ implies #[trigger] self.has_file(m) == old(
                self,
            ).has_file(m) by {
                lemma_assoc_update(pre, idx as int, newentry, m);
                assert(mid.has_file(m) == old(self).has_file(m));
            }
            lemma_assoc_update(pre, idx as int, newentry, filename@);
            lemma_assoc_at(self.files@, idx as int);
            assert(assoc_unique(self.files@));
            assert forall|i: int| 0 <= i < self.files@.len() implies #[trigger] self.files@[i].1@.len() as int
                % self.spec_blocksize() == 0 by {
                if i != idx as int {
                    assert(self.files@[i] == pre[i]);
                }
            }
        }
        Ok(())
    }

    /// How many files the store holds.
    pub fn num_files(&self) -> (r: usize)
        ensures
            r == self.spec_names().len(),
    {
        self.files.len()
    }

    /// The name of the file at position `i` of the store.
    pub fn file_name_at(&self, i: usize) -> (r: &String)
        requires
            i < self.spec_names().len(),
        ensures
            r@ == self.spec_names()[i as int],
    {
        &self.files[i].0
    }

    /// The stored bytes of the file at position `i` of the store.
    pub fn file_content_at(&self, i: usize) -> (r: &Vec<u8>)
        requires
            self.wf(),
            i < self.spec_names().len(),
        ensures
            r@ == self.file_of(self.spec_names()[i as int]),
    {
        proof {
            lemma_assoc_at(self.files@, i as int);
        }
        &self.files[i].1
    }
}

/// Relies on `str::len`: the byte length of the slice, which is the length
/// of its UTF-8 encoding.
#[verifier::external_body]
pub(crate) fn str_len(s: &str) -> (r: usize)
    ensures
        r == vstd::utf8::encode_utf8(s@).len(),
{
    s.len()
}

/// Compares two string slices. Relies on `str`'s `PartialEq`: equal exactly
/// when the character sequences are equal.
#[verifier::external_body]
pub(crate) fn str_eq(a: &str, b: &str) -> (r: bool)
    ensures
        r == (a@ == b@),
{
    a == b
}

/// Overwrites `p` with `len` zero bytes (its full length).
fn fill_zero(p: &mut Page, len: usize)
    requires
        old(p)@.len() == len,
    ensures
        final(p)@ == Seq::new(len as nat, |i: int| 0u8),
{
    let z = Page::new_from_size(len);
    *p = z;
    proof {
        assert(p@ =~= Seq::new(len as nat, |i: int| 0u8));
    }
}

/// Overwrites `p` with `len` bytes of `src` starting at `start`.
fn copy_range(p: &mut Page, src: &Vec<u8>, start: usize, len: usize)
    requires
        old(p)@.len() == len,
        start + len <= src@.len(),
    ensures
        final(p)@ == src@.subrange(start as int, start + len),
{
    let srclen = src.len();
    let mut v: Vec<u8> = Vec::new();
    let mut i: usize = 0;
    while i < len
        invariant
            i <= len,
            start + len <= srclen,
            srclen == src@.len(),
            v@.len() == i,
            forall|j: int| 0 <= j < i ==> v@[j] == src@[start + j],
        decreases len - i,
    {
        v.push(src[start + i]);
        i = i + 1;
    }
    *p = Page::new_from_bytes(v);
    proof {
        assert(p@ =~= src@.subrange(start as int, start + len));
    }
}

} // verus!
