//! Fixed-width numbers stored back to back: sequences and arrays of them, read in one piece.

use crate::arrays::array_from_vec;
use crate::cdr_error::{CdrError, CdrResult};
use crate::decoder::{
    align_up, fixed_end, fixed_outcome, lemma_fixed_bytes, take_end, take_outcome,
    CdrDecoder,
};
use crate::encoder::{padded, with_uint, CdrEncoder};
use crate::wire::{
    lemma_pow256_values, lemma_uint_round_trip, pow256, uint_bytes, uint_from_bytes,
    uint_to_bytes, uint_value, Endianness,
};
use core::marker::PhantomData;
use core::mem::size_of;
use vstd::layout::{layout_of_primitives, size_of as spec_size_of};
use vstd::prelude::*;
use vstd::std_specs::cmp::PartialEqSpecImpl;

verus! {

broadcast use layout_of_primitives;

/// A number that is stored as its `size_of` bytes in the stream's byte order.
pub trait PrimitiveValue: Copy + Sized + 'static {
    /// The number that `bytes` hold in byte order `e`.
    spec fn spec_from_chunk(bytes: Seq<u8>, e: Endianness) -> Self;

    /// The unsigned number whose bytes represent `v`.
    spec fn spec_to_uint(v: Self) -> nat;

    /// The size is 2, 4 or 8 bytes, and writing a value then reading it gives it back.
    proof fn lemma_chunk(v: Self, e: Endianness)
        ensures
            spec_size_of::<Self>() == 2 || spec_size_of::<Self>() == 4 || spec_size_of::<Self>()
                == 8,
            Self::spec_to_uint(v) < pow256(spec_size_of::<Self>()),
            Self::spec_from_chunk(
                uint_bytes(Self::spec_to_uint(v), spec_size_of::<Self>(), e),
                e,
            ) == v,
    ;

    fn decode_chunk(bytes: &[u8], endianness: Endianness) -> (r: Self)
        requires
            bytes@.len() == spec_size_of::<Self>(),
        ensures
            r == Self::spec_from_chunk(bytes@, endianness),
    ;

    /// The unsigned number whose bytes represent `self`.
    fn to_uint(self) -> (r: u64)
        ensures
            r == Self::spec_to_uint(self),
    ;
}

impl PrimitiveValue for u16 {
    open spec fn spec_from_chunk(bytes: Seq<u8>, e: Endianness) -> u16 {
        uint_value(bytes, e) as u16
    }

    open spec fn spec_to_uint(v: u16) -> nat {
        v as nat
    }

    proof fn lemma_chunk(v: u16, e: Endianness) {
        lemma_pow256_values();
        lemma_uint_round_trip(v as nat, 2, e);
    }

    fn decode_chunk(bytes: &[u8], endianness: Endianness) -> (r: u16) {
        let v = uint_from_bytes(bytes, endianness);
        proof {
            crate::wire::lemma_uint_value_bound(bytes@, endianness);
            lemma_pow256_values();
        }
        v as u16
    }

    fn to_uint(self) -> (r: u64) {
        self as u64
    }
}

impl PrimitiveValue for u32 {
    open spec fn spec_from_chunk(bytes: Seq<u8>, e: Endianness) -> u32 {
        uint_value(bytes, e) as u32
    }

    open spec fn spec_to_uint(v: u32) -> nat {
        v as nat
    }

    proof fn lemma_chunk(v: u32, e: Endianness) {
        lemma_pow256_values();
        lemma_uint_round_trip(v as nat, 4, e);
    }

    fn decode_chunk(bytes: &[u8], endianness: Endianness) -> (r: u32) {
        let v = uint_from_bytes(bytes, endianness);
        proof {
            crate::wire::lemma_uint_value_bound(bytes@, endianness);
            lemma_pow256_values();
        }
        v as u32
    }

    fn to_uint(self) -> (r: u64) {
        self as u64
    }
}

impl PrimitiveValue for u64 {
    open spec fn spec_from_chunk(bytes: Seq<u8>, e: Endianness) -> u64 {
        uint_value(bytes, e) as u64
    }

    open spec fn spec_to_uint(v: u64) -> nat {
        v as nat
    }

    proof fn lemma_chunk(v: u64, e: Endianness) {
        lemma_pow256_values();
        lemma_uint_round_trip(v as nat, 8, e);
    }

    fn decode_chunk(bytes: &[u8], endianness: Endianness) -> (r: u64) {
        let v = uint_from_bytes(bytes, endianness);
        v
    }

    fn to_uint(self) -> (r: u64) {
        self
    }
}

impl PrimitiveValue for i16 {
    open spec fn spec_from_chunk(bytes: Seq<u8>, e: Endianness) -> i16 {
        (uint_value(bytes, e) as u16) as i16
    }

    open spec fn spec_to_uint(v: i16) -> nat {
        (v as u16) as nat
    }

    proof fn lemma_chunk(v: i16, e: Endianness) {
        lemma_pow256_values();
        lemma_uint_round_trip((v as u16) as nat, 2, e);
        assert(((v as u16) as i16) == v) by (bit_vector);
    }

    fn decode_chunk(bytes: &[u8], endianness: Endianness) -> (r: i16) {
        let v = uint_from_bytes(bytes, endianness);
        proof {
            crate::wire::lemma_uint_value_bound(bytes@, endianness);
            lemma_pow256_values();
        }
        (v as u16) as i16
    }

    fn to_uint(self) -> (r: u64) {
        (self as u16) as u64
    }
}

impl PrimitiveValue for i32 {
    open spec fn spec_from_chunk(bytes: Seq<u8>, e: Endianness) -> i32 {
        (uint_value(bytes, e) as u32) as i32
    }

    open spec fn spec_to_uint(v: i32) -> nat {
        (v as u32) as nat
    }

    proof fn lemma_chunk(v: i32, e: Endianness) {
        lemma_pow256_values();
        lemma_uint_round_trip((v as u32) as nat, 4, e);
        assert(((v as u32) as i32) == v) by (bit_vector);
    }

    fn decode_chunk(bytes: &[u8], endianness: Endianness) -> (r: i32) {
        let v = uint_from_bytes(bytes, endianness);
        proof {
            crate::wire::lemma_uint_value_bound(bytes@, endianness);
            lemma_pow256_values();
        }
        (v as u32) as i32
    }

    fn to_uint(self) -> (r: u64) {
        (self as u32) as u64
    }
}

impl PrimitiveValue for i64 {
    open spec fn spec_from_chunk(bytes: Seq<u8>, e: Endianness) -> i64 {
        (uint_value(bytes, e) as u64) as i64
    }

    open spec fn spec_to_uint(v: i64) -> nat {
        (v as u64) as nat
    }

    proof fn lemma_chunk(v: i64, e: Endianness) {
        lemma_pow256_values();
        lemma_uint_round_trip((v as u64) as nat, 8, e);
        assert(((v as u64) as i64) == v) by (bit_vector);
    }

    fn decode_chunk(bytes: &[u8], endianness: Endianness) -> (r: i64) {
        let v = uint_from_bytes(bytes, endianness);
        v as i64
    }

    fn to_uint(self) -> (r: u64) {
        self as u64
    }
}

/// The chunk of `w` bytes at index `i`.
pub open spec fn chunk(bytes: Seq<u8>, w: int, i: int) -> Seq<u8> {
    bytes.subrange(i * w, i * w + w)
}

/// The numbers held by the whole `size_of::<T>()`-byte chunks of `bytes`; a shorter tail is
/// ignored.
pub open spec fn chunks_view<T: PrimitiveValue>(bytes: Seq<u8>, e: Endianness) -> Seq<T> {
    let w = spec_size_of::<T>() as int;
    Seq::new(
        (bytes.len() as int / w) as nat,
        |i: int| T::spec_from_chunk(chunk(bytes, w, i), e),
    )
}

/// The bytes of the numbers `vs`, `w` bytes each, back to back.
pub open spec fn concat_uints(vs: Seq<nat>, w: nat, e: Endianness) -> Seq<u8>
    decreases vs.len(),
{
    if vs.len() == 0 {
        Seq::empty()
    } else {
        concat_uints(vs.drop_last(), w, e) + uint_bytes(vs.last(), w, e)
    }
}

/// The unsigned numbers whose bytes represent the values.
pub open spec fn uints_of<T: PrimitiveValue>(vs: Seq<T>) -> Seq<nat> {
    vs.map_values(|v: T| T::spec_to_uint(v))
}

/// What reading a `u32` count and then that many `w`-byte numbers, aligned to `w`, gives: their
/// bytes.
pub open spec fn prim_seq_outcome(
    payload: Seq<u8>,
    pos: int,
    e: Endianness,
    w: int,
    context: &'static str,
) -> Result<Seq<u8>, CdrError> {
    match fixed_outcome(payload, pos, 4) {
        Err(err) => Err(err),
        Ok(lb) => {
            let start = align_up(fixed_end(payload, pos, 4), w);
            let n = uint_value(lb, e) as int;
            if n * w > usize::MAX {
                Err(CdrError::LengthOverflow { context })
            } else {
                take_outcome(payload, start, n * w)
            }
        },
    }
}

/// The position after reading a counted run of `w`-byte numbers.
pub open spec fn prim_seq_end(payload: Seq<u8>, pos: int, e: Endianness, w: int) -> int {
    match fixed_outcome(payload, pos, 4) {
        Err(_) => fixed_end(payload, pos, 4),
        Ok(lb) => {
            let start = align_up(fixed_end(payload, pos, 4), w);
            let n = uint_value(lb, e) as int;
            if n * w > usize::MAX {
                start
            } else {
                take_end(payload, start, n * w)
            }
        },
    }
}

/// What reading `n` numbers of `w` bytes, aligned to `w`, without a count gives: their bytes.
pub open spec fn prim_array_outcome(
    payload: Seq<u8>,
    pos: int,
    n: int,
    w: int,
    context: &'static str,
) -> Result<Seq<u8>, CdrError> {
    if n * w > usize::MAX {
        Err(CdrError::LengthOverflow { context })
    } else {
        take_outcome(payload, align_up(pos, w), n * w)
    }
}

/// The position after reading `n` numbers of `w` bytes without a count.
pub open spec fn prim_array_end(payload: Seq<u8>, pos: int, n: int, w: int) -> int {
    if n * w > usize::MAX {
        align_up(pos, w)
    } else {
        take_end(payload, align_up(pos, w), n * w)
    }
}

/// `data` after writing the numbers `vs`, `w` bytes each, aligned to `w`, preceded by their
/// count when `counted`; `None` when their total size does not fit in `usize`, in which case
/// the count and the padding have been written.
pub open spec fn prim_slice_written(
    data: Seq<u8>,
    vs: Seq<nat>,
    w: int,
    e: Endianness,
    counted: bool,
) -> (Seq<u8>, bool) {
    let with_count = if counted {
        with_uint(data, 4, (vs.len() as u32) as nat, e)
    } else {
        data
    };
    if vs.len() * w > usize::MAX {
        (padded(with_count, w), false)
    } else {
        (padded(with_count, w) + concat_uints(vs, w as nat, e), true)
    }
}

pub proof fn lemma_chunk_offsets(i: int, n: int, w: int)
    requires
        0 <= i < n,
        0 < w,
    ensures
        0 <= i * w,
        i * w + w <= n * w,
        (i + 1) * w == i * w + w,
{
    assert(i * w + w <= n * w && (i + 1) * w == i * w + w && 0 <= i * w) by (nonlinear_arith)
        requires
            0 <= i < n,
            0 < w,
    ;
}

pub proof fn lemma_div_len(len: int, w: int, n: int)
    requires
        0 < w,
        len == n * w,
        0 <= n,
    ensures
        len / w == n,
{
    assert(len / w == n) by (nonlinear_arith)
        requires
            0 < w,
            len == n * w,
            0 <= n,
    ;
}

/// Decodes the whole `w`-byte chunks of `bytes`.
fn decode_chunks<T: PrimitiveValue>(bytes: &[u8], endianness: Endianness) -> (r: Vec<T>)
    ensures
        r@ == chunks_view::<T>(bytes@, endianness),
{
    let w = size_of::<T>();
    proof {
        T::lemma_chunk(arbitrary(), endianness);
    }
    let blen = bytes.len();
    let count = blen / w;
    let mut items: Vec<T> = Vec::with_capacity(count);
    let mut i: usize = 0;
    while i < count
        invariant
            w == spec_size_of::<T>(),
            w == 2 || w == 4 || w == 8,
            count == bytes@.len() as int / w as int,
            blen == bytes@.len(),
            i <= count,
            items@ == chunks_view::<T>(bytes@, endianness).subrange(0, i as int),
        decreases count - i,
    {
        proof {
            lemma_chunk_offsets(i as int, count as int, w as int);
            assert(count * w <= bytes@.len()) by (nonlinear_arith)
                requires
                    count == bytes@.len() as int / w as int,
                    w > 0,
            ;
        }
        let start = i * w;
        let piece = &bytes[start..start + w];
        let item = T::decode_chunk(piece, endianness);
        items.push(item);
        i = i + 1;
        assert(items@ =~= chunks_view::<T>(bytes@, endianness).subrange(0, i as int));
    }
    assert(items@ =~= chunks_view::<T>(bytes@, endianness));
    items
}

/// Numbers of type `T` borrowed from a payload, decoded on access.
pub struct PrimitiveSeq<'a, T> {
    bytes: &'a [u8],
    endianness: Endianness,
    _marker: PhantomData<T>,
}

/// `N` numbers of type `T` borrowed from a payload, decoded on access.
pub struct PrimitiveArray<'a, T, const N: usize> {
    bytes: &'a [u8],
    endianness: Endianness,
    _marker: PhantomData<T>,
}

/// Walks the numbers of a `PrimitiveSeq` or `PrimitiveArray` in order.
pub struct PrimitiveSeqIter<'a, T> {
    rest: &'a [u8],
    endianness: Endianness,
    _marker: PhantomData<T>,
}

impl<'a, T> Clone for PrimitiveSeq<'a, T> {
    fn clone(&self) -> (r: Self)
        ensures
            r == *self,
    {
        PrimitiveSeq { bytes: self.bytes, endianness: self.endianness, _marker: PhantomData }
    }
}

impl<'a, T, const N: usize> Clone for PrimitiveArray<'a, T, N> {
    fn clone(&self) -> (r: Self)
        ensures
            r == *self,
    {
        PrimitiveArray { bytes: self.bytes, endianness: self.endianness, _marker: PhantomData }
    }
}

/// Whether two sequences of numbers hold the same numbers.
fn same_values<T: PrimitiveValue>(a: &Vec<T>, b: &Vec<T>) -> (r: bool)
    ensures
        r == (a@ == b@),
{
    if a.len() != b.len() {
        return false;
    }
    let mut i: usize = 0;
    while i < a.len()
        invariant
            i <= a@.len(),
            a@.len() == b@.len(),
            forall|k: int| 0 <= k < i ==> a@[k] == b@[k],
        decreases a@.len() - i,
    {
        proof {
            T::lemma_chunk(a@[i as int], Endianness::Little);
            T::lemma_chunk(b@[i as int], Endianness::Little);
        }
        if a[i].to_uint() != b[i].to_uint() {
            return false;
        }
        i = i + 1;
    }
    assert(a@ =~= b@);
    true
}

impl<'a, T: PrimitiveValue> PartialEq for PrimitiveSeq<'a, T> {
    fn eq(&self, other: &Self) -> (r: bool) {
        let a = self.to_vec();
        let b = other.to_vec();
        same_values(&a, &b)
    }
}

impl<'a, T: PrimitiveValue> PartialEqSpecImpl for PrimitiveSeq<'a, T> {
    open spec fn obeys_eq_spec() -> bool {
        true
    }

    open spec fn eq_spec(&self, other: &Self) -> bool {
        self@ == other@
    }
}

impl<'a, T: PrimitiveValue, const N: usize> PartialEq for PrimitiveArray<'a, T, N> {
    fn eq(&self, other: &Self) -> (r: bool) {
        let a = decode_chunks::<T>(self.bytes, self.endianness);
        let b = decode_chunks::<T>(other.bytes, other.endianness);
        same_values(&a, &b)
    }
}

impl<'a, T: PrimitiveValue, const N: usize> PartialEqSpecImpl for PrimitiveArray<'a, T, N> {
    open spec fn obeys_eq_spec() -> bool {
        true
    }

    open spec fn eq_spec(&self, other: &Self) -> bool {
        self@ == other@
    }
}

impl<'a, T: PrimitiveValue> View for PrimitiveSeq<'a, T> {
    type V = Seq<T>;

    closed spec fn view(&self) -> Seq<T> {
        chunks_view::<T>(self.bytes@, self.endianness)
    }
}

impl<'a, T: PrimitiveValue, const N: usize> View for PrimitiveArray<'a, T, N> {
    type V = Seq<T>;

    closed spec fn view(&self) -> Seq<T> {
        chunks_view::<T>(self.bytes@, self.endianness)
    }
}

impl<'a, T: PrimitiveValue> PrimitiveSeqIter<'a, T> {
    /// The numbers that are still to come.
    pub closed spec fn remaining(&self) -> Seq<T> {
        chunks_view::<T>(self.rest@, self.endianness)
    }

    /// The next number, if any.
    pub fn next(&mut self) -> (r: Option<T>)
        ensures
            old(self).remaining().len() > 0 ==> r == Some(old(self).remaining()[0])
                && final(self).remaining() == old(self).remaining().drop_first(),
            old(self).remaining().len() == 0 ==> r is None && final(self).remaining() == old(
                self,
            ).remaining(),
    {
        let w = size_of::<T>();
        proof {
            T::lemma_chunk(arbitrary(), self.endianness);
        }
        if self.rest.len() < w {
            assert(self.rest@.len() as int / w as int == 0);
            return None;
        }
        let ghost before = self.rest@;
        let item = T::decode_chunk(&self.rest[0..w], self.endianness);
        self.rest = &self.rest[w..self.rest.len()];
        proof {
            let n = before.len() as int / w as int;
            assert(n >= 1) by (nonlinear_arith)
                requires
                    before.len() >= w,
                    w > 0,
                    n == before.len() as int / w as int,
            ;
            assert(self.rest@.len() as int / w as int == n - 1) by (nonlinear_arith)
                requires
                    self.rest@.len() == before.len() - w,
                    w > 0,
                    n == before.len() as int / w as int,
            ;
            assert forall|i: int| 0 <= i < n - 1 implies chunk(self.rest@, w as int, i) =~= chunk(
                before,
                w as int,
                i + 1,
            ) by {
                lemma_chunk_offsets(i, n - 1, w as int);
            }
            assert(chunk(before, w as int, 0) =~= before.subrange(0, w as int));
            assert(chunks_view::<T>(self.rest@, self.endianness) =~= chunks_view::<T>(
                before,
                self.endianness,
            ).drop_first());
        }
        Some(item)
    }
}

impl<'a, T: PrimitiveValue> PrimitiveSeq<'a, T> {
    /// The bytes hold a whole number of values.
    pub closed spec fn wf(&self) -> bool {
        self.bytes@.len() as int % spec_size_of::<T>() as int == 0
    }

    /// The number of whole values.
    pub fn len(&self) -> (r: usize)
        ensures
            r == self@.len(),
    {
        proof {
            T::lemma_chunk(arbitrary(), self.endianness);
        }
        self.bytes.len() / size_of::<T>()
    }

    /// Whether there are no bytes at all.
    pub fn is_empty(&self) -> (r: bool)
        ensures
            self.wf() ==> (r <==> self@.len() == 0),
    {
        proof {
            T::lemma_chunk(arbitrary(), self.endianness);
        }
        proof {
            let len = self.bytes@.len() as int;
            let w = spec_size_of::<T>() as int;
            if self.wf() && len > 0 {
                assert(len / w > 0) by (nonlinear_arith)
                    requires
                        len % w == 0,
                        len > 0,
                        w > 0,
                ;
            }
        }
        self.bytes.len() == 0
    }

    /// An iterator over the values, first to last.
    pub fn iter(&self) -> (r: PrimitiveSeqIter<'_, T>)
        ensures
            r.remaining() == self@,
    {
        PrimitiveSeqIter { rest: self.bytes, endianness: self.endianness, _marker: PhantomData }
    }

    /// The values, decoded into a vector.
    pub fn to_vec(&self) -> (r: Vec<T>)
        ensures
            r@ == self@,
    {
        decode_chunks::<T>(self.bytes, self.endianness)
    }
}

impl<'a, T: PrimitiveValue, const N: usize> PrimitiveArray<'a, T, N> {
    /// The bytes hold exactly `N` values.
    pub closed spec fn wf(&self) -> bool {
        self.bytes@.len() == N as int * spec_size_of::<T>() as int
    }

    pub fn len(&self) -> (r: usize)
        ensures
            r == N,
            self.wf() ==> r == self@.len(),
    {
        proof {
            T::lemma_chunk(arbitrary(), self.endianness);
            if self.wf() {
                lemma_div_len(self.bytes@.len() as int, spec_size_of::<T>() as int, N as int);
            }
        }
        N
    }

    pub fn is_empty(&self) -> (r: bool)
        ensures
            r == (N == 0),
    {
        N == 0
    }

    /// An iterator over the values, first to last.
    pub fn iter(&self) -> (r: PrimitiveSeqIter<'_, T>)
        ensures
            r.remaining() == self@,
    {
        PrimitiveSeqIter { rest: self.bytes, endianness: self.endianness, _marker: PhantomData }
    }

    /// The values, decoded into an array.
    pub fn to_array(&self) -> (r: [T; N])
        requires
            self.wf(),
        ensures
            r@ == self@,
    {
        let items = decode_chunks::<T>(self.bytes, self.endianness);
        proof {
            T::lemma_chunk(arbitrary(), self.endianness);
            lemma_div_len(self.bytes@.len() as int, spec_size_of::<T>() as int, N as int);
        }
        match array_from_vec::<T, N>(items) {
            Ok(array) => array,
            Err(_) => vstd::pervasive::unreached(),
        }
    }
}

impl<'a> CdrDecoder<'a> {
    /// A `u32` count, then the bytes of that many `w`-byte numbers, aligned to `w`.
    fn read_prim_seq_bytes(&mut self, w: usize, context: &'static str) -> (r: CdrResult<&'a [u8]>)
        requires
            old(self).wf(),
            w == 2 || w == 4 || w == 8,
        ensures
            final(self).continues(old(self)),
            final(self).pos == prim_seq_end(
                old(self).payload@,
                old(self).pos as int,
                old(self).endianness,
                w as int,
            ),
            match prim_seq_outcome(
                old(self).payload@,
                old(self).pos as int,
                old(self).endianness,
                w as int,
                context,
            ) {
                Ok(b) => r matches Ok(s) && s@ == b,
                Err(err) => r == Err::<&'a [u8], CdrError>(err),
            },
    {
        proof {
            lemma_fixed_bytes(self.payload@, self.pos as int, 4, self.endianness);
            lemma_pow256_values();
        }
        let length = self.read_u32()? as usize;
        self.align_to(w);
        let byte_len = match length.checked_mul(w) {
            Some(n) => n,
            None => {
                return Err(CdrError::LengthOverflow { context });
            },
        };
        self.read_bytes_raw(byte_len)
    }

    /// The bytes of `n` numbers of `w` bytes, aligned to `w`, without a count.
    fn read_prim_array_bytes(&mut self, n: usize, w: usize, context: &'static str) -> (r: CdrResult<
        &'a [u8],
    >)
        requires
            old(self).wf(),
            w == 2 || w == 4 || w == 8,
        ensures
            final(self).continues(old(self)),
            final(self).pos == prim_array_end(old(self).payload@, old(self).pos as int, n as int, w as int),
            match prim_array_outcome(old(self).payload@, old(self).pos as int, n as int, w as int, context) {
                Ok(b) => r matches Ok(s) && s@ == b,
                Err(err) => r == Err::<&'a [u8], CdrError>(err),
            },
    {
        self.align_to(w);
        let byte_len = match n.checked_mul(w) {
            Some(n) => n,
            None => {
                return Err(CdrError::LengthOverflow { context });
            },
        };
        self.read_bytes_raw(byte_len)
    }

    fn read_primitive_seq<T: PrimitiveValue>(&mut self) -> (r: CdrResult<Vec<T>>)
        requires
            old(self).wf(),
        ensures
            final(self).continues(old(self)),
            final(self).pos == prim_seq_end(
                old(self).payload@,
                old(self).pos as int,
                old(self).endianness,
                spec_size_of::<T>() as int,
            ),
            match prim_seq_outcome(
                old(self).payload@,
                old(self).pos as int,
                old(self).endianness,
                spec_size_of::<T>() as int,
                "CdrDecoder::read_primitive_seq",
            ) {
                Ok(b) => r matches Ok(v) && v@ == chunks_view::<T>(b, old(self).endianness),
                Err(err) => r == Err::<Vec<T>, CdrError>(err),
            },
    {
        proof {
            T::lemma_chunk(arbitrary(), self.endianness);
        }
        let bytes = self.read_prim_seq_bytes(size_of::<T>(), "CdrDecoder::read_primitive_seq")?;
        Ok(decode_chunks::<T>(bytes, self.endianness))
    }

    fn read_primitive_array<T: PrimitiveValue, const N: usize>(&mut self) -> (r: CdrResult<[T; N]>)
        requires
            old(self).wf(),
        ensures
            final(self).continues(old(self)),
            final(self).pos == prim_array_end(
                old(self).payload@,
                old(self).pos as int,
                N as int,
                spec_size_of::<T>() as int,
            ),
            match prim_array_outcome(
                old(self).payload@,
                old(self).pos as int,
                N as int,
                spec_size_of::<T>() as int,
                "CdrDecoder::read_primitive_array",
            ) {
                Ok(b) => r matches Ok(a) && a@ == chunks_view::<T>(b, old(self).endianness),
                Err(err) => r == Err::<[T; N], CdrError>(err),
            },
    {
        proof {
            T::lemma_chunk(arbitrary(), self.endianness);
        }
        let bytes = self.read_prim_array_bytes(N, size_of::<T>(), "CdrDecoder::read_primitive_array")?;
        let items = decode_chunks::<T>(bytes, self.endianness);
        proof {
            lemma_div_len(bytes@.len() as int, spec_size_of::<T>() as int, N as int);
        }
        match array_from_vec::<T, N>(items) {
            Ok(array) => Ok(array),
            Err(items) => Err(CdrError::FixedArrayLength { expected: N, actual: items.len() }),
        }
    }

    /// A `u32` count, then that many numbers of type `T`, borrowed and decoded on access.
    pub fn read_primitive_seq_borrowed<T: PrimitiveValue>(&mut self) -> (r: CdrResult<
        PrimitiveSeq<'a, T>,
    >)
        requires
            old(self).wf(),
        ensures
            final(self).continues(old(self)),
            final(self).pos == prim_seq_end(
                old(self).payload@,
                old(self).pos as int,
                old(self).endianness,
                spec_size_of::<T>() as int,
            ),
            match prim_seq_outcome(
                old(self).payload@,
                old(self).pos as int,
                old(self).endianness,
                spec_size_of::<T>() as int,
                "CdrDecoder::read_primitive_seq_borrowed",
            ) {
                Ok(b) => r matches Ok(s) && s@ == chunks_view::<T>(b, old(self).endianness)
                    && s.wf(),
                Err(err) => r == Err::<PrimitiveSeq<'a, T>, CdrError>(err),
            },
    {
        proof {
            T::lemma_chunk(arbitrary(), self.endianness);
        }
        let bytes = self.read_prim_seq_bytes(
            size_of::<T>(),
            "CdrDecoder::read_primitive_seq_borrowed",
        )?;
        proof {
            let len = bytes@.len() as int;
            let w = spec_size_of::<T>() as int;
            assert(len % w == 0) by (nonlinear_arith)
                requires
                    exists|n: int| 0 <= n && #[trigger] (n * w) == len,
                    w > 0,
            {
                let n = choose|n: int| 0 <= n && #[trigger] (n * w) == len;
                vstd::arithmetic::div_mod::lemma_mod_multiples_basic(n, w);
            }
        }
        Ok(PrimitiveSeq { bytes, endianness: self.endianness, _marker: PhantomData })
    }

    /// Exactly `N` numbers of type `T`, borrowed and decoded on access.
    pub fn read_primitive_array_borrowed<T: PrimitiveValue, const N: usize>(&mut self) -> (r:
        CdrResult<PrimitiveArray<'a, T, N>>)
        requires
            old(self).wf(),
        ensures
            final(self).continues(old(self)),
            final(self).pos == prim_array_end(
                old(self).payload@,
                old(self).pos as int,
                N as int,
                spec_size_of::<T>() as int,
            ),
            match prim_array_outcome(
                old(self).payload@,
                old(self).pos as int,
                N as int,
                spec_size_of::<T>() as int,
                "CdrDecoder::read_primitive_array_borrowed",
            ) {
                Ok(b) => r matches Ok(a) && a@ == chunks_view::<T>(b, old(self).endianness)
                    && a.wf(),
                Err(err) => r == Err::<PrimitiveArray<'a, T, N>, CdrError>(err),
            },
    {
        proof {
            T::lemma_chunk(arbitrary(), self.endianness);
        }
        let bytes = self.read_prim_array_bytes(
            N,
            size_of::<T>(),
            "CdrDecoder::read_primitive_array_borrowed",
        )?;
        Ok(PrimitiveArray { bytes, endianness: self.endianness, _marker: PhantomData })
    }

    /// A `u32` count, then that many `u16` values back to back, aligned to their size.
    pub fn read_u16_seq(&mut self) -> (r: CdrResult<Vec<u16>>)
        requires
            old(self).wf(),
        ensures
            final(self).continues(old(self)),
            final(self).pos == prim_seq_end(
                old(self).payload@,
                old(self).pos as int,
                old(self).endianness,
                spec_size_of::<u16>() as int,
            ),
            match prim_seq_outcome(
                old(self).payload@,
                old(self).pos as int,
                old(self).endianness,
                spec_size_of::<u16>() as int,
                "CdrDecoder::read_primitive_seq",
            ) {
                Ok(b) => r matches Ok(v) && v@ == chunks_view::<u16>(b, old(self).endianness),
                Err(err) => r == Err::<Vec<u16>, CdrError>(err),
            },
    {
        self.read_primitive_seq::<u16>()
    }

    /// Exactly `N` `u16` values back to back, aligned to their size, without a count.
    pub fn read_u16_array<const N: usize>(&mut self) -> (r: CdrResult<[u16; N]>)
        requires
            old(self).wf(),
        ensures
            final(self).continues(old(self)),
            final(self).pos == prim_array_end(
                old(self).payload@,
                old(self).pos as int,
                N as int,
                spec_size_of::<u16>() as int,
            ),
            match prim_array_outcome(
                old(self).payload@,
                old(self).pos as int,
                N as int,
                spec_size_of::<u16>() as int,
                "CdrDecoder::read_primitive_array",
            ) {
                Ok(b) => r matches Ok(a) && a@ == chunks_view::<u16>(b, old(self).endianness),
                Err(err) => r == Err::<[u16; N], CdrError>(err),
            },
    {
        self.read_primitive_array::<u16, N>()
    }

    /// A `u32` count, then that many `u32` values back to back, aligned to their size.
    pub fn read_u32_seq(&mut self) -> (r: CdrResult<Vec<u32>>)
        requires
            old(self).wf(),
        ensures
            final(self).continues(old(self)),
            final(self).pos == prim_seq_end(
                old(self).payload@,
                old(self).pos as int,
                old(self).endianness,
                spec_size_of::<u32>() as int,
            ),
            match prim_seq_outcome(
                old(self).payload@,
                old(self).pos as int,
                old(self).endianness,
                spec_size_of::<u32>() as int,
                "CdrDecoder::read_primitive_seq",
            ) {
                Ok(b) => r matches Ok(v) && v@ == chunks_view::<u32>(b, old(self).endianness),
                Err(err) => r == Err::<Vec<u32>, CdrError>(err),
            },
    {
        self.read_primitive_seq::<u32>()
    }

    /// Exactly `N` `u32` values back to back, aligned to their size, without a count.
    pub fn read_u32_array<const N: usize>(&mut self) -> (r: CdrResult<[u32; N]>)
        requires
            old(self).wf(),
        ensures
            final(self).continues(old(self)),
            final(self).pos == prim_array_end(
                old(self).payload@,
                old(self).pos as int,
                N as int,
                spec_size_of::<u32>() as int,
            ),
            match prim_array_outcome(
                old(self).payload@,
                old(self).pos as int,
                N as int,
                spec_size_of::<u32>() as int,
                "CdrDecoder::read_primitive_array",
            ) {
                Ok(b) => r matches Ok(a) && a@ == chunks_view::<u32>(b, old(self).endianness),
                Err(err) => r == Err::<[u32; N], CdrError>(err),
            },
    {
        self.read_primitive_array::<u32, N>()
    }

    /// A `u32` count, then that many `u64` values back to back, aligned to their size.
    pub fn read_u64_seq(&mut self) -> (r: CdrResult<Vec<u64>>)
        requires
            old(self).wf(),
        ensures
            final(self).continues(old(self)),
            final(self).pos == prim_seq_end(
                old(self).payload@,
                old(self).pos as int,
                old(self).endianness,
                spec_size_of::<u64>() as int,
            ),
            match prim_seq_outcome(
                old(self).payload@,
                old(self).pos as int,
                old(self).endianness,
                spec_size_of::<u64>() as int,
                "CdrDecoder::read_primitive_seq",
            ) {
                Ok(b) => r matches Ok(v) && v@ == chunks_view::<u64>(b, old(self).endianness),
                Err(err) => r == Err::<Vec<u64>, CdrError>(err),
            },
    {
        self.read_primitive_seq::<u64>()
    }

    /// Exactly `N` `u64` values back to back, aligned to their size, without a count.
    pub fn read_u64_array<const N: usize>(&mut self) -> (r: CdrResult<[u64; N]>)
        requires
            old(self).wf(),
        ensures
            final(self).continues(old(self)),
            final(self).pos == prim_array_end(
                old(self).payload@,
                old(self).pos as int,
                N as int,
                spec_size_of::<u64>() as int,
            ),
            match prim_array_outcome(
                old(self).payload@,
                old(self).pos as int,
                N as int,
                spec_size_of::<u64>() as int,
                "CdrDecoder::read_primitive_array",
            ) {
                Ok(b) => r matches Ok(a) && a@ == chunks_view::<u64>(b, old(self).endianness),
                Err(err) => r == Err::<[u64; N], CdrError>(err),
            },
    {
        self.read_primitive_array::<u64, N>()
    }

    /// A `u32` count, then that many `i16` values back to back, aligned to their size.
    pub fn read_i16_seq(&mut self) -> (r: CdrResult<Vec<i16>>)
        requires
            old(self).wf(),
        ensures
            final(self).continues(old(self)),
            final(self).pos == prim_seq_end(
                old(self).payload@,
                old(self).pos as int,
                old(self).endianness,
                spec_size_of::<i16>() as int,
            ),
            match prim_seq_outcome(
                old(self).payload@,
                old(self).pos as int,
                old(self).endianness,
                spec_size_of::<i16>() as int,
                "CdrDecoder::read_primitive_seq",
            ) {
                Ok(b) => r matches Ok(v) && v@ == chunks_view::<i16>(b, old(self).endianness),
                Err(err) => r == Err::<Vec<i16>, CdrError>(err),
            },
    {
        self.read_primitive_seq::<i16>()
    }

    /// Exactly `N` `i16` values back to back, aligned to their size, without a count.
    pub fn read_i16_array<const N: usize>(&mut self) -> (r: CdrResult<[i16; N]>)
        requires
            old(self).wf(),
        ensures
            final(self).continues(old(self)),
            final(self).pos == prim_array_end(
                old(self).payload@,
                old(self).pos as int,
                N as int,
                spec_size_of::<i16>() as int,
            ),
            match prim_array_outcome(
                old(self).payload@,
                old(self).pos as int,
                N as int,
                spec_size_of::<i16>() as int,
                "CdrDecoder::read_primitive_array",
            ) {
                Ok(b) => r matches Ok(a) && a@ == chunks_view::<i16>(b, old(self).endianness),
                Err(err) => r == Err::<[i16; N], CdrError>(err),
            },
    {
        self.read_primitive_array::<i16, N>()
    }

    /// A `u32` count, then that many `i32` values back to back, aligned to their size.
    pub fn read_i32_seq(&mut self) -> (r: CdrResult<Vec<i32>>)
        requires
            old(self).wf(),
        ensures
            final(self).continues(old(self)),
            final(self).pos == prim_seq_end(
                old(self).payload@,
                old(self).pos as int,
                old(self).endianness,
                spec_size_of::<i32>() as int,
            ),
            match prim_seq_outcome(
                old(self).payload@,
                old(self).pos as int,
                old(self).endianness,
                spec_size_of::<i32>() as int,
                "CdrDecoder::read_primitive_seq",
            ) {
                Ok(b) => r matches Ok(v) && v@ == chunks_view::<i32>(b, old(self).endianness),
                Err(err) => r == Err::<Vec<i32>, CdrError>(err),
            },
    {
        self.read_primitive_seq::<i32>()
    }

    /// Exactly `N` `i32` values back to back, aligned to their size, without a count.
    pub fn read_i32_array<const N: usize>(&mut self) -> (r: CdrResult<[i32; N]>)
        requires
            old(self).wf(),
        ensures
            final(self).continues(old(self)),
            final(self).pos == prim_array_end(
                old(self).payload@,
                old(self).pos as int,
                N as int,
                spec_size_of::<i32>() as int,
            ),
            match prim_array_outcome(
                old(self).payload@,
                old(self).pos as int,
                N as int,
                spec_size_of::<i32>() as int,
                "CdrDecoder::read_primitive_array",
            ) {
                Ok(b) => r matches Ok(a) && a@ == chunks_view::<i32>(b, old(self).endianness),
                Err(err) => r == Err::<[i32; N], CdrError>(err),
            },
    {
        self.read_primitive_array::<i32, N>()
    }

    /// A `u32` count, then that many `i64` values back to back, aligned to their size.
    pub fn read_i64_seq(&mut self) -> (r: CdrResult<Vec<i64>>)
        requires
            old(self).wf(),
        ensures
            final(self).continues(old(self)),
            final(self).pos == prim_seq_end(
                old(self).payload@,
                old(self).pos as int,
                old(self).endianness,
                spec_size_of::<i64>() as int,
            ),
            match prim_seq_outcome(
                old(self).payload@,
                old(self).pos as int,
                old(self).endianness,
                spec_size_of::<i64>() as int,
                "CdrDecoder::read_primitive_seq",
            ) {
                Ok(b) => r matches Ok(v) && v@ == chunks_view::<i64>(b, old(self).endianness),
                Err(err) => r == Err::<Vec<i64>, CdrError>(err),
            },
    {
        self.read_primitive_seq::<i64>()
    }

    /// Exactly `N` `i64` values back to back, aligned to their size, without a count.
    pub fn read_i64_array<const N: usize>(&mut self) -> (r: CdrResult<[i64; N]>)
        requires
            old(self).wf(),
        ensures
            final(self).continues(old(self)),
            final(self).pos == prim_array_end(
                old(self).payload@,
                old(self).pos as int,
                N as int,
                spec_size_of::<i64>() as int,
            ),
            match prim_array_outcome(
                old(self).payload@,
                old(self).pos as int,
                N as int,
                spec_size_of::<i64>() as int,
                "CdrDecoder::read_primitive_array",
            ) {
                Ok(b) => r matches Ok(a) && a@ == chunks_view::<i64>(b, old(self).endianness),
                Err(err) => r == Err::<[i64; N], CdrError>(err),
            },
    {
        self.read_primitive_array::<i64, N>()
    }
}

impl CdrEncoder {
    fn write_primitive_slice<T: PrimitiveValue>(&mut self, value: &[T], write_len: bool) -> (r:
        CdrResult<()>)
        ensures
            final(self).endianness == old(self).endianness,
            ({
                let (d, ok) = prim_slice_written(
                    old(self).data_raw@,
                    uints_of(value@),
                    spec_size_of::<T>() as int,
                    old(self).endianness,
                    write_len,
                );
                &&& final(self).data_raw@ == d
                &&& ok ==> r is Ok
                &&& !ok ==> r == Err::<(), CdrError>(
                    CdrError::LengthOverflow { context: "CdrEncoder::write_primitive_slice" },
                )
            }),
    {
        proof {
            T::lemma_chunk(arbitrary(), self.endianness);
            lemma_pow256_values();
        }
        if write_len {
            self.write_u32(value.len() as u32);
        }
        let w = size_of::<T>();
        self.align_to(w);
        let _byte_len = match value.len().checked_mul(w) {
            Some(n) => n,
            None => {
                return Err(CdrError::LengthOverflow { context: "CdrEncoder::write_primitive_slice" });
            },
        };
        let ghost start = self.data_raw@;
        let mut i: usize = 0;
        while i < value.len()
            invariant
                i <= value@.len(),
                w == spec_size_of::<T>(),
                self.endianness == old(self).endianness,
                self.data_raw@ == start + concat_uints(
                    uints_of(value@).subrange(0, i as int),
                    w as nat,
                    self.endianness,
                ),
            decreases value@.len() - i,
        {
            let item = value[i];
            proof {
                T::lemma_chunk(item, self.endianness);
            }
            let bytes = uint_to_bytes(item.to_uint(), w, self.endianness);
            self.write_bytes_raw(bytes.as_slice());
            i = i + 1;
            proof {
                let vs = uints_of(value@).subrange(0, i as int);
                assert(vs.drop_last() =~= uints_of(value@).subrange(0, i - 1));
            }
        }
        assert(uints_of(value@).subrange(0, value@.len() as int) =~= uints_of(value@));
        Ok(())
    }

    /// A `u32` count (the length modulo 2^32), then the `u16` values back to back, aligned to
    /// their size.
    pub fn write_u16_seq(&mut self, value: &[u16]) -> (r: CdrResult<()>)
        ensures
            final(self).endianness == old(self).endianness,
            ({
                let (d, ok) = prim_slice_written(
                    old(self).data_raw@,
                    uints_of(value@),
                    spec_size_of::<u16>() as int,
                    old(self).endianness,
                    true,
                );
                &&& final(self).data_raw@ == d
                &&& ok ==> r is Ok
                &&& !ok ==> r == Err::<(), CdrError>(
                    CdrError::LengthOverflow { context: "CdrEncoder::write_primitive_slice" },
                )
            }),
    {
        self.write_primitive_slice(value, true)
    }

    /// The `N` `u16` values back to back, aligned to their size, without a count.
    pub fn write_u16_array<const N: usize>(&mut self, value: &[u16; N]) -> (r: CdrResult<()>)
        ensures
            final(self).endianness == old(self).endianness,
            ({
                let (d, ok) = prim_slice_written(
                    old(self).data_raw@,
                    uints_of(value@),
                    spec_size_of::<u16>() as int,
                    old(self).endianness,
                    false,
                );
                &&& final(self).data_raw@ == d
                &&& ok ==> r is Ok
                &&& !ok ==> r == Err::<(), CdrError>(
                    CdrError::LengthOverflow { context: "CdrEncoder::write_primitive_slice" },
                )
            }),
    {
        self.write_primitive_slice(value.as_slice(), false)
    }

    /// A `u32` count (the length modulo 2^32), then the `u32` values back to back, aligned to
    /// their size.
    pub fn write_u32_seq(&mut self, value: &[u32]) -> (r: CdrResult<()>)
        ensures
            final(self).endianness == old(self).endianness,
            ({
                let (d, ok) = prim_slice_written(
                    old(self).data_raw@,
                    uints_of(value@),
                    spec_size_of::<u32>() as int,
                    old(self).endianness,
                    true,
                );
                &&& final(self).data_raw@ == d
                &&& ok ==> r is Ok
                &&& !ok ==> r == Err::<(), CdrError>(
                    CdrError::LengthOverflow { context: "CdrEncoder::write_primitive_slice" },
                )
            }),
    {
        self.write_primitive_slice(value, true)
    }

    /// The `N` `u32` values back to back, aligned to their size, without a count.
    pub fn write_u32_array<const N: usize>(&mut self, value: &[u32; N]) -> (r: CdrResult<()>)
        ensures
            final(self).endianness == old(self).endianness,
            ({
                let (d, ok) = prim_slice_written(
                    old(self).data_raw@,
                    uints_of(value@),
                    spec_size_of::<u32>() as int,
                    old(self).endianness,
                    false,
                );
                &&& final(self).data_raw@ == d
                &&& ok ==> r is Ok
                &&& !ok ==> r == Err::<(), CdrError>(
                    CdrError::LengthOverflow { context: "CdrEncoder::write_primitive_slice" },
                )
            }),
    {
        self.write_primitive_slice(value.as_slice(), false)
    }

    /// A `u32` count (the length modulo 2^32), then the `u64` values back to back, aligned to
    /// their size.
    pub fn write_u64_seq(&mut self, value: &[u64]) -> (r: CdrResult<()>)
        ensures
            final(self).endianness == old(self).endianness,
            ({
                let (d, ok) = prim_slice_written(
                    old(self).data_raw@,
                    uints_of(value@),
                    spec_size_of::<u64>() as int,
                    old(self).endianness,
                    true,
                );
                &&& final(self).data_raw@ == d
                &&& ok ==> r is Ok
                &&& !ok ==> r == Err::<(), CdrError>(
                    CdrError::LengthOverflow { context: "CdrEncoder::write_primitive_slice" },
                )
            }),
    {
        self.write_primitive_slice(value, true)
    }

    /// The `N` `u64` values back to back, aligned to their size, without a count.
    pub fn write_u64_array<const N: usize>(&mut self, value: &[u64; N]) -> (r: CdrResult<()>)
        ensures
            final(self).endianness == old(self).endianness,
            ({
                let (d, ok) = prim_slice_written(
                    old(self).data_raw@,
                    uints_of(value@),
                    spec_size_of::<u64>() as int,
                    old(self).endianness,
                    false,
                );
                &&& final(self).data_raw@ == d
                &&& ok ==> r is Ok
                &&& !ok ==> r == Err::<(), CdrError>(
                    CdrError::LengthOverflow { context: "CdrEncoder::write_primitive_slice" },
                )
            }),
    {
        self.write_primitive_slice(value.as_slice(), false)
    }

    /// A `u32` count (the length modulo 2^32), then the `i16` values back to back, aligned to
    /// their size.
    pub fn write_i16_seq(&mut self, value: &[i16]) -> (r: CdrResult<()>)
        ensures
            final(self).endianness == old(self).endianness,
            ({
                let (d, ok) = prim_slice_written(
                    old(self).data_raw@,
                    uints_of(value@),
                    spec_size_of::<i16>() as int,
                    old(self).endianness,
                    true,
                );
                &&& final(self).data_raw@ == d
                &&& ok ==> r is Ok
                &&& !ok ==> r == Err::<(), CdrError>(
                    CdrError::LengthOverflow { context: "CdrEncoder::write_primitive_slice" },
                )
            }),
    {
        self.write_primitive_slice(value, true)
    }

    /// The `N` `i16` values back to back, aligned to their size, without a count.
    pub fn write_i16_array<const N: usize>(&mut self, value: &[i16; N]) -> (r: CdrResult<()>)
        ensures
            final(self).endianness == old(self).endianness,
            ({
                let (d, ok) = prim_slice_written(
                    old(self).data_raw@,
                    uints_of(value@),
                    spec_size_of::<i16>() as int,
                    old(self).endianness,
                    false,
                );
                &&& final(self).data_raw@ == d
                &&& ok ==> r is Ok
                &&& !ok ==> r == Err::<(), CdrError>(
                    CdrError::LengthOverflow { context: "CdrEncoder::write_primitive_slice" },
                )
            }),
    {
        self.write_primitive_slice(value.as_slice(), false)
    }

    /// A `u32` count (the length modulo 2^32), then the `i32` values back to back, aligned to
    /// their size.
    pub fn write_i32_seq(&mut self, value: &[i32]) -> (r: CdrResult<()>)
        ensures
            final(self).endianness == old(self).endianness,
            ({
                let (d, ok) = prim_slice_written(
                    old(self).data_raw@,
                    uints_of(value@),
                    spec_size_of::<i32>() as int,
                    old(self).endianness,
                    true,
                );
                &&& final(self).data_raw@ == d
                &&& ok ==> r is Ok
                &&& !ok ==> r == Err::<(), CdrError>(
                    CdrError::LengthOverflow { context: "CdrEncoder::write_primitive_slice" },
                )
            }),
    {
        self.write_primitive_slice(value, true)
    }

    /// The `N` `i32` values back to back, aligned to their size, without a count.
    pub fn write_i32_array<const N: usize>(&mut self, value: &[i32; N]) -> (r: CdrResult<()>)
        ensures
            final(self).endianness == old(self).endianness,
            ({
                let (d, ok) = prim_slice_written(
                    old(self).data_raw@,
                    uints_of(value@),
                    spec_size_of::<i32>() as int,
                    old(self).endianness,
                    false,
                );
                &&& final(self).data_raw@ == d
                &&& ok ==> r is Ok
                &&& !ok ==> r == Err::<(), CdrError>(
                    CdrError::LengthOverflow { context: "CdrEncoder::write_primitive_slice" },
                )
            }),
    {
        self.write_primitive_slice(value.as_slice(), false)
    }

    /// A `u32` count (the length modulo 2^32), then the `i64` values back to back, aligned to
    /// their size.
    pub fn write_i64_seq(&mut self, value: &[i64]) -> (r: CdrResult<()>)
        ensures
            final(self).endianness == old(self).endianness,
            ({
                let (d, ok) = prim_slice_written(
                    old(self).data_raw@,
                    uints_of(value@),
                    spec_size_of::<i64>() as int,
                    old(self).endianness,
                    true,
                );
                &&& final(self).data_raw@ == d
                &&& ok ==> r is Ok
                &&& !ok ==> r == Err::<(), CdrError>(
                    CdrError::LengthOverflow { context: "CdrEncoder::write_primitive_slice" },
                )
            }),
    {
        self.write_primitive_slice(value, true)
    }

    /// The `N` `i64` values back to back, aligned to their size, without a count.
    pub fn write_i64_array<const N: usize>(&mut self, value: &[i64; N]) -> (r: CdrResult<()>)
        ensures
            final(self).endianness == old(self).endianness,
            ({
                let (d, ok) = prim_slice_written(
                    old(self).data_raw@,
                    uints_of(value@),
                    spec_size_of::<i64>() as int,
                    old(self).endianness,
                    false,
                );
                &&& final(self).data_raw@ == d
                &&& ok ==> r is Ok
                &&& !ok ==> r == Err::<(), CdrError>(
                    CdrError::LengthOverflow { context: "CdrEncoder::write_primitive_slice" },
                )
            }),
    {
        self.write_primitive_slice(value.as_slice(), false)
    }
}

} // verus!
