//! Fixed-length byte pages with typed accessors.
//!
//! A [`Page`] is a buffer of exactly the configured block size. Integers are
//! stored as four big-endian bytes; byte strings are stored as a big-endian
//! `i32` length prefix followed by the raw bytes; strings are byte strings in
//! UTF-8. Every accessor that would touch bytes past the end of the page
//! fails with [`DbError::BufferSizeExceeded`] and leaves the page unchanged.

use vstd::prelude::*;
use vstd::utf8::{encode_utf8, valid_utf8};
use crate::errors::DbError;

verus! {

/// The four big-endian bytes of `v`.
pub open spec fn spec_i32_to_be(v: i32) -> Seq<u8> {
    seq![
        (((v as u32) >> 24) & 0xff) as u8,
        (((v as u32) >> 16) & 0xff) as u8,
        (((v as u32) >> 8) & 0xff) as u8,
        ((v as u32) & 0xff) as u8,
    ]
}

/// The `i32` read from four big-endian bytes.
pub open spec fn spec_i32_from_be(s: Seq<u8>) -> i32
    recommends
        s.len() == 4,
{
    (((s[0] as u32) << 24) | ((s[1] as u32) << 16) | ((s[2] as u32) << 8) | (s[3]
        as u32)) as i32
}

pub proof fn lemma_i32_be_roundtrip(v: i32)
    ensures
        spec_i32_to_be(v).len() == 4,
        spec_i32_from_be(spec_i32_to_be(v)) == v,
{
    assert((((((((v as u32) >> 24) & 0xff) as u8) as u32) << 24) | ((((((v as u32) >> 16)
        & 0xff) as u8) as u32) << 16) | ((((((v as u32) >> 8) & 0xff) as u8) as u32) << 8)
        | ((((v as u32) & 0xff) as u8) as u32)) as i32 == v) by (bit_vector);
}

pub proof fn lemma_i32_be_bytes_unique(s: Seq<u8>)
    requires
        s.len() == 4,
    ensures
        spec_i32_to_be(spec_i32_from_be(s)) == s,
{
    let b0 = s[0];
    let b1 = s[1];
    let b2 = s[2];
    let b3 = s[3];
    let x = (((b0 as u32) << 24) | ((b1 as u32) << 16) | ((b2 as u32) << 8) | (b3
        as u32)) as i32;
    assert((((x as u32) >> 24) & 0xff) as u8 == b0 && (((x as u32) >> 16) & 0xff) as u8
        == b1 && (((x as u32) >> 8) & 0xff) as u8 == b2 && ((x as u32) & 0xff) as u8
        == b3) by (bit_vector)
        requires
            x == (((b0 as u32) << 24) | ((b1 as u32) << 16) | ((b2 as u32) << 8) | (b3
                as u32)) as i32,
    ;
    assert(spec_i32_to_be(spec_i32_from_be(s)) =~= s);
}

/// `p` with the bytes of `b` laid over it starting at offset `o`; bytes past
/// the end of `p` are dropped (the page never grows).
pub open spec fn spec_write(p: Seq<u8>, o: int, b: Seq<u8>) -> Seq<u8> {
    Seq::new(p.len(), |i: int| if o <= i && i < o + b.len() {
        b[i - o]
    } else {
        p[i]
    })
}

/// The length-prefixed encoding of a byte string: four big-endian length
/// bytes, then the bytes themselves.
pub open spec fn spec_len_prefixed(b: Seq<u8>) -> Seq<u8> {
    spec_i32_to_be(b.len() as i32) + b
}

/// A value that knows its page encoding.
pub trait ToPageBytes {
    /// The bytes this value occupies in a page.
    spec fn spec_page_bytes(&self) -> Seq<u8>;

    /// Whether the value can be encoded at all (a byte string must fit an
    /// `i32` length prefix).
    spec fn wf_page_bytes(&self) -> bool;

    fn to_page_bytes(&self) -> (r: Vec<u8>)
        requires
            self.wf_page_bytes(),
        ensures
            r@ == self.spec_page_bytes(),
    ;
}

impl ToPageBytes for i32 {
    open spec fn spec_page_bytes(&self) -> Seq<u8> {
        spec_i32_to_be(*self)
    }

    open spec fn wf_page_bytes(&self) -> bool {
        true
    }

    fn to_page_bytes(&self) -> (r: Vec<u8>) {
        i32_to_be_bytes(*self)
    }
}

impl ToPageBytes for String {
    open spec fn spec_page_bytes(&self) -> Seq<u8> {
        spec_len_prefixed(encode_utf8(self@))
    }

    open spec fn wf_page_bytes(&self) -> bool {
        encode_utf8(self@).len() <= i32::MAX
    }

    fn to_page_bytes(&self) -> (r: Vec<u8>) {
        let bytes = self.as_str().as_bytes();
        let mut r = i32_to_be_bytes(bytes.len() as i32);
        r.extend_from_slice(bytes);
        assert(r@ =~= self.spec_page_bytes());
        r
    }
}

/// The four big-endian bytes of `v`, as a vector.
pub fn i32_to_be_bytes(v: i32) -> (r: Vec<u8>)
    ensures
        r@ == spec_i32_to_be(v),
        r@.len() == 4,
{
    let u: u32 = #[verifier::truncate] (v as u32);
    assert((u >> 24) & 0xff < 256 && (u >> 16) & 0xff < 256 && (u >> 8) & 0xff < 256 && u
        & 0xff < 256) by (bit_vector);
    let mut r: Vec<u8> = Vec::new();
    r.push(((u >> 24) & 0xff) as u8);
    r.push(((u >> 16) & 0xff) as u8);
    r.push(((u >> 8) & 0xff) as u8);
    r.push((u & 0xff) as u8);
    assert(r@ =~= spec_i32_to_be(v));
    r
}

/// The `i32` read from four big-endian bytes.
pub fn i32_from_be_bytes(b0: u8, b1: u8, b2: u8, b3: u8) -> (r: i32)
    ensures
        r == spec_i32_from_be(seq![b0, b1, b2, b3]),
{
    let u: u32 = ((b0 as u32) << 24) | ((b1 as u32) << 16) | ((b2 as u32) << 8) | (b3
        as u32);
    #[verifier::truncate] (u as i32)
}

/// Page round-trip for integers: reading four bytes where an integer was
/// just written yields that integer, at every in-bounds offset.
pub proof fn lemma_page_i32_roundtrip(p: Seq<u8>, o: int, v: i32)
    requires
        0 <= o,
        o + 4 <= p.len(),
    ensures
        spec_i32_from_be(spec_write(p, o, spec_i32_to_be(v)).subrange(o, o + 4)) == v,
{
    lemma_i32_be_roundtrip(v);
    assert(spec_write(p, o, spec_i32_to_be(v)).subrange(o, o + 4) =~= spec_i32_to_be(v));
}

/// Page round-trip for byte strings: where a length-prefixed byte string was
/// just written, the read finds it in bounds and yields the same bytes, at
/// every offset that fits it.
pub proof fn lemma_page_bytes_roundtrip(p: Seq<u8>, o: int, b: Seq<u8>)
    requires
        0 <= o,
        o + 4 + b.len() <= p.len(),
        b.len() <= i32::MAX,
    ensures
        Page::spec_bytes_in_bounds(spec_write(p, o, spec_len_prefixed(b)), o),
        Page::spec_bytes_at(spec_write(p, o, spec_len_prefixed(b)), o) == b,
{
    let w = spec_write(p, o, spec_len_prefixed(b));
    lemma_i32_be_roundtrip(b.len() as i32);
    assert(w.subrange(o, o + 4) =~= spec_i32_to_be(b.len() as i32));
    assert(w.subrange(o + 4, o + 4 + b.len()) =~= b);
}

/// Page round-trip for strings: where a string's encoding was just written,
/// the read finds valid UTF-8 whose decoding is the same character sequence.
pub proof fn lemma_page_string_roundtrip(p: Seq<u8>, o: int, s: Seq<char>)
    requires
        0 <= o,
        o + 4 + encode_utf8(s).len() <= p.len(),
        encode_utf8(s).len() <= i32::MAX,
    ensures
        Page::spec_bytes_in_bounds(spec_write(p, o, spec_len_prefixed(encode_utf8(s))), o),
        Page::spec_bytes_at(spec_write(p, o, spec_len_prefixed(encode_utf8(s))), o)
            == encode_utf8(s),
        valid_utf8(Page::spec_bytes_at(spec_write(p, o, spec_len_prefixed(encode_utf8(s))), o)),
        forall|t: Seq<char>| encode_utf8(t) == encode_utf8(s) ==> t == s,
{
    lemma_page_bytes_roundtrip(p, o, encode_utf8(s));
    vstd::utf8::encode_utf8_valid_utf8(s);
    assert forall|t: Seq<char>| encode_utf8(t) == encode_utf8(s) implies t == s by {
        vstd::utf8::encode_utf8_decode_utf8(t);
        vstd::utf8::encode_utf8_decode_utf8(s);
    }
}

/// A block-sized byte buffer with typed accessors.
pub struct Page {
    bb: Vec<u8>,
}

impl View for Page {
    type V = Seq<u8>;

    closed spec fn view(&self) -> Seq<u8> {
        self.bb@
    }
}

impl Page {
    pub fn new_from_bytes(b: Vec<u8>) -> (p: Self)
        ensures
            p@ == b@,
    {
        Self { bb: b }
    }

    pub fn new_from_size(blocksize: usize) -> (p: Self)
        ensures
            p@.len() == blocksize,
            forall|i: int| 0 <= i < blocksize ==> p@[i] == 0u8,
    {
        let mut bb: Vec<u8> = Vec::new();
        let mut i: usize = 0;
        while i < blocksize
            invariant
                i <= blocksize,
                bb@.len() == i,
                forall|j: int| 0 <= j < i ==> bb@[j] == 0u8,
            decreases blocksize - i,
        {
            bb.push(0u8);
            i = i + 1;
        }
        Self { bb }
    }

    /// Lays `b` into the page at `offset`: all or nothing —
    /// the whole write fits or nothing is written.
    fn set_page_bytes(&mut self, offset: usize, b: Vec<u8>) -> (r: Result<usize, DbError>)
        ensures
            offset + b@.len() <= old(self)@.len() ==> {
                &&& r matches Ok(n) && n == offset + b@.len()
                &&& final(self)@ == spec_write(old(self)@, offset as int, b@)
            },
            offset + b@.len() > old(self)@.len() ==> {
                &&& r == Err::<usize, DbError>(DbError::BufferSizeExceeded)
                &&& final(self)@ == old(self)@
            },
            final(self)@.len() == old(self)@.len(),
    {
        let size = b.len();
        let total = self.bb.len();
        if size <= total && offset <= total - size {
            let mut i: usize = 0;
            while i < size
                invariant
                    i <= size,
                    size == b@.len(),
                    offset + size <= self.bb@.len(),
                    self.bb@.len() <= usize::MAX,
                    self.bb@.len() == old(self)@.len(),
                    forall|j: int| offset <= j < offset + i ==> self.bb@[j] == b@[j - offset],
                    forall|j: int| 0 <= j < self.bb@.len() && !(offset <= j < offset + i)
                        ==> self.bb@[j] == old(self)@[j],
                decreases size - i,
            {
                self.bb[offset + i] = b[i];
                i = i + 1;
            }
            assert(self.bb@ =~= spec_write(old(self)@, offset as int, b@));
            Ok(offset + size)
        } else {
            Err(DbError::BufferSizeExceeded)
        }
    }

    /// Encodes `t` and writes it at `offset`.
    pub fn set<T: ToPageBytes>(&mut self, offset: usize, t: T) -> (r: Result<usize, DbError>)
        requires
            t.wf_page_bytes(),
        ensures
            offset + t.spec_page_bytes().len() <= old(self)@.len() ==> {
                &&& r matches Ok(n) && n == offset + t.spec_page_bytes().len()
                &&& final(self)@ == spec_write(old(self)@, offset as int, t.spec_page_bytes())
            },
            offset + t.spec_page_bytes().len() > old(self)@.len() ==> {
                &&& r == Err::<usize, DbError>(DbError::BufferSizeExceeded)
                &&& final(self)@ == old(self)@
            },
            final(self)@.len() == old(self)@.len(),
    {
        let bytes = t.to_page_bytes();
        self.set_page_bytes(offset, bytes)
    }

    pub fn get_i32(&self, offset: usize) -> (r: Result<i32, DbError>)
        ensures
            offset + 4 <= self@.len() ==> (r matches Ok(v) && v == spec_i32_from_be(
                self@.subrange(offset as int, offset + 4),
            )),
            offset + 4 > self@.len() ==> r == Err::<i32, DbError>(DbError::BufferSizeExceeded),
    {
        if 4 <= self.bb.len() && offset <= self.bb.len() - 4 {
            let v = i32_from_be_bytes(
                self.bb[offset],
                self.bb[offset + 1],
                self.bb[offset + 2],
                self.bb[offset + 3],
            );
            assert(seq![self.bb@[offset as int], self.bb@[offset + 1], self.bb@[offset + 2],
                self.bb@[offset + 3]] =~= self@.subrange(offset as int, offset + 4));
            Ok(v)
        } else {
            Err(DbError::BufferSizeExceeded)
        }
    }

    pub fn set_i32(&mut self, offset: usize, n: i32) -> (r: Result<usize, DbError>)
        ensures
            offset + 4 <= old(self)@.len() ==> {
                &&& r matches Ok(m) && m == offset + 4
                &&& final(self)@ == spec_write(old(self)@, offset as int, spec_i32_to_be(n))
            },
            offset + 4 > old(self)@.len() ==> {
                &&& r == Err::<usize, DbError>(DbError::BufferSizeExceeded)
                &&& final(self)@ == old(self)@
            },
            final(self)@.len() == old(self)@.len(),
    {
        self.set(offset, n)
    }

    /// Whether a length-prefixed byte string at `offset` lies inside the page.
    pub open spec fn spec_bytes_in_bounds(p: Seq<u8>, offset: int) -> bool {
        let l = spec_i32_from_be(p.subrange(offset, offset + 4));
        &&& offset + 4 <= p.len()
        &&& 0 <= l
        &&& offset + 4 + l <= p.len()
    }

    /// The raw bytes of the length-prefixed byte string at `offset`.
    pub open spec fn spec_bytes_at(p: Seq<u8>, offset: int) -> Seq<u8> {
        let l = spec_i32_from_be(p.subrange(offset, offset + 4));
        p.subrange(offset + 4, offset + 4 + l)
    }

    pub fn get_bytes(&self, offset: usize) -> (r: Result<Vec<u8>, DbError>)
        ensures
            Self::spec_bytes_in_bounds(self@, offset as int) ==> (r matches Ok(v) && v@
                == Self::spec_bytes_at(self@, offset as int)),
            !Self::spec_bytes_in_bounds(self@, offset as int) ==> r == Err::<Vec<u8>, DbError>(
                DbError::BufferSizeExceeded,
            ),
    {
        let l = self.get_i32(offset)?;
        if l < 0 {
            return Err(DbError::BufferSizeExceeded);
        }
        let len = l as usize;
        let total = self.bb.len();
        let start = offset + 4;
        if len <= total && start <= total - len {
            let mut v: Vec<u8> = Vec::new();
            let mut i: usize = 0;
            while i < len
                invariant
                    i <= len,
                    start + len <= self.bb@.len(),
                    self.bb@.len() <= usize::MAX,
                    v@.len() == i,
                    forall|j: int| 0 <= j < i ==> v@[j] == self.bb@[start + j],
                decreases len - i,
            {
                v.push(self.bb[start + i]);
                i = i + 1;
            }
            assert(v@ =~= Self::spec_bytes_at(self@, offset as int));
            Ok(v)
        } else {
            Err(DbError::BufferSizeExceeded)
        }
    }

    pub fn set_bytes(&mut self, offset: usize, b: &[u8]) -> (r: Result<usize, DbError>)
        ensures
            offset + 4 + b@.len() <= old(self)@.len() && b@.len() <= i32::MAX ==> {
                &&& r matches Ok(n) && n == offset + 4 + b@.len()
                &&& final(self)@ == spec_write(old(self)@, offset as int, spec_len_prefixed(b@))
            },
            offset + 4 + b@.len() > old(self)@.len() || b@.len() > i32::MAX ==> {
                &&& r == Err::<usize, DbError>(DbError::BufferSizeExceeded)
                &&& final(self)@ == old(self)@
            },
            final(self)@.len() == old(self)@.len(),
    {
        if b.len() > (i32::MAX as usize) {
            return Err(DbError::BufferSizeExceeded);
        }
        let mut rec = i32_to_be_bytes(b.len() as i32);
        rec.extend_from_slice(b);
        assert(rec@ =~= spec_len_prefixed(b@));
        self.set_page_bytes(offset, rec)
    }

    pub fn get_string(&self, offset: usize) -> (r: Result<String, DbError>)
        ensures
            Self::spec_bytes_in_bounds(self@, offset as int) && valid_utf8(
                Self::spec_bytes_at(self@, offset as int),
            ) ==> (r matches Ok(s) && encode_utf8(s@) == Self::spec_bytes_at(
                self@,
                offset as int,
            )),
            Self::spec_bytes_in_bounds(self@, offset as int) && !valid_utf8(
                Self::spec_bytes_at(self@, offset as int),
            ) ==> r == Err::<String, DbError>(DbError::InvalidUtf8),
            !Self::spec_bytes_in_bounds(self@, offset as int) ==> r == Err::<String, DbError>(
                DbError::BufferSizeExceeded,
            ),
    {
        let bytes = self.get_bytes(offset)?;
        match string_from_utf8(bytes) {
            Some(s) => {
                proof {
                    vstd::utf8::encode_utf8_valid_utf8(s@);
                }
                Ok(s)
            },
            None => Err(DbError::InvalidUtf8),
        }
    }

    pub fn set_string(&mut self, offset: usize, s: String) -> (r: Result<usize, DbError>)
        ensures
            offset + 4 + encode_utf8(s@).len() <= old(self)@.len() && encode_utf8(s@).len()
                <= i32::MAX ==> {
                &&& r matches Ok(n) && n == offset + 4 + encode_utf8(s@).len()
                &&& final(self)@ == spec_write(
                    old(self)@,
                    offset as int,
                    spec_len_prefixed(encode_utf8(s@)),
                )
            },
            offset + 4 + encode_utf8(s@).len() > old(self)@.len() || encode_utf8(s@).len()
                > i32::MAX ==> {
                &&& r == Err::<usize, DbError>(DbError::BufferSizeExceeded)
                &&& final(self)@ == old(self)@
            },
            final(self)@.len() == old(self)@.len(),
    {
        let bytes = s.as_str().as_bytes();
        self.set_bytes(offset, bytes)
    }

    /// Bytes needed in a page for a string whose UTF-8 encoding has `strlen`
    /// bytes: the length prefix plus the bytes.
    pub fn max_length(strlen: usize) -> (r: usize)
        requires
            strlen + 4 <= usize::MAX,
        ensures
            r == strlen + 4,
    {
        4 + strlen
    }

    pub fn contents(&self) -> (r: &Vec<u8>)
        ensures
            r@ == self@,
    {
        &self.bb
    }
}

/// Relies on `String::from_utf8`: decodes exactly the valid UTF-8 byte
/// strings, to the string whose encoding is those bytes.
#[verifier::external_body]
fn string_from_utf8(v: Vec<u8>) -> (r: Option<String>)
    ensures
        match r {
            Some(s) => encode_utf8(s@) == v@,
            None => !valid_utf8(v@),
        },
{
    String::from_utf8(v).ok()
}

} // verus!
