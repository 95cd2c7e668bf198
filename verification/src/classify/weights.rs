//! The `.iwt` weights blob: a flat little-endian container of named quantized tensors. Layout:
//!
//! ```text
//! magic:        [u8; 4] = "IW01"
//! version:      u16 = 1
//! flags:        u16 = 0
//! tensor_count: u32
//! repeat tensor_count times:
//!     name_len: u16,  name: [name_len] utf-8
//!     dtype:    u8    (0 = i8, 1 = i32, 2 = binary32)
//!     scale:    binary32   (dequantization scale for i8 tensors; 0 otherwise)
//!     ndim:     u8,   dims: [ndim] u32
//!     data_len: u32,  data: [data_len] bytes
//! ```
use crate::error::Error;
use crate::float::{num, F32};
use crate::stroke::ZERO;
use crate::text::{same_text, utf8_text};
use vstd::bytes::*;
use vstd::prelude::*;
use vstd::slice::slice_subrange;

verus! {

/// The format version.
pub const VERSION: u16 = 1;

pub const DTYPE_I8: u8 = 0;

pub const DTYPE_I32: u8 = 1;

pub const DTYPE_F32: u8 = 2;

/// `IW01`.
pub open spec fn magic() -> Seq<u8> {
    seq![0x49u8, 0x57, 0x30, 0x31]
}

// ---------------------------------------------------------------------------------------------
// Tensors
// ---------------------------------------------------------------------------------------------
/// One named tensor, borrowing its bytes from the blob.
pub struct Tensor<'a> {
    pub name: &'a str,
    pub dtype: u8,
    pub scale: F32,
    pub dims: Vec<u32>,
    pub data: &'a [u8],
}

/// What a [`Tensor`] holds.
#[verifier::ext_equal]
pub struct TensorView {
    pub name: Seq<char>,
    pub dtype: u8,
    pub scale: F32,
    pub dims: Seq<u32>,
    pub data: Seq<u8>,
}

impl<'a> View for Tensor<'a> {
    type V = TensorView;

    open spec fn view(&self) -> TensorView {
        TensorView {
            name: self.name@,
            dtype: self.dtype,
            scale: self.scale,
            dims: self.dims@,
            data: self.data@,
        }
    }
}

/// The product of the dimensions.
pub open spec fn product(dims: Seq<u32>) -> nat
    decreases dims.len(),
{
    if dims.len() == 0 {
        1
    } else {
        product(dims.drop_last()) * dims.last() as nat
    }
}

/// The byte as a two's complement number.
pub open spec fn signed_byte(b: u8) -> i8 {
    if b < 128 {
        b as i8
    } else {
        (b - 256) as i8
    }
}

/// The two's complement byte of a number.
pub open spec fn byte_of(v: i8) -> u8 {
    if v < 0 {
        (v + 256) as u8
    } else {
        v as u8
    }
}

/// The word as a two's complement number.
pub open spec fn signed_word(w: u32) -> i32 {
    if w < 0x8000_0000 {
        w as i32
    } else {
        (w - 0x1_0000_0000) as i32
    }
}

/// The two's complement word of a number.
pub open spec fn word_of(v: i32) -> u32 {
    if v < 0 {
        (v + 0x1_0000_0000) as u32
    } else {
        v as u32
    }
}

fn to_signed_byte(b: u8) -> (r: i8)
    ensures
        r == signed_byte(b),
{
    if b < 128 {
        b as i8
    } else {
        (b as i16 - 256) as i8
    }
}

fn to_signed_word(w: u32) -> (r: i32)
    ensures
        r == signed_word(w),
{
    if w < 0x8000_0000 {
        w as i32
    } else {
        (w as i64 - 0x1_0000_0000) as i32
    }
}

/// The word at position `i`, counting whole words.
pub open spec fn word_at(data: Seq<u8>, i: int) -> u32 {
    spec_u32_from_le_bytes(data.subrange(4 * i, 4 * i + 4))
}

/// The whole words of the data.
pub open spec fn words(data: Seq<u8>) -> Seq<u32> {
    Seq::new((data.len() / 4) as nat, |i: int| word_at(data, i))
}

/// The entries of an `i8` tensor; none for another type.
pub open spec fn i8_entries(t: TensorView) -> Seq<i8> {
    if t.dtype == DTYPE_I8 {
        Seq::new(t.data.len(), |i: int| signed_byte(t.data[i]))
    } else {
        Seq::empty()
    }
}

/// The entries of an `i32` tensor; none for another type.
pub open spec fn i32_entries(t: TensorView) -> Seq<i32> {
    if t.dtype == DTYPE_I32 {
        Seq::new(words(t.data).len(), |i: int| signed_word(words(t.data)[i]))
    } else {
        Seq::empty()
    }
}

/// The entries of a binary32 tensor; none for another type.
pub open spec fn f32_entries(t: TensorView) -> Seq<F32> {
    if t.dtype == DTYPE_F32 {
        Seq::new(words(t.data).len(), |i: int| num(words(t.data)[i]))
    } else {
        Seq::empty()
    }
}

pub(crate) fn get_word(data: &[u8], i: usize) -> (r: u32)
    requires
        4 * i + 4 <= data@.len(),
    ensures
        r == word_at(data@, i as int),
{
    assert(data.len() <= usize::MAX);
    u32_from_le_bytes(slice_subrange(data, 4 * i, 4 * i + 4))
}

impl<'a> Tensor<'a> {
    /// Element count: the product of the dimensions.
    pub fn len(&self) -> (r: usize)
        requires
            forall|k: int|
                0 <= k <= self.dims@.len() ==> product(#[trigger] self.dims@.take(k)) <= usize::MAX,
        ensures
            r == product(self@.dims),
    {
        let mut n: usize = 1;
        let mut i: usize = 0;
        while i < self.dims.len()
            invariant
                i <= self.dims.len(),
                n == product(self.dims@.take(i as int)),
                forall|k: int|
                    0 <= k <= self.dims@.len() ==> product(#[trigger] self.dims@.take(k))
                        <= usize::MAX,
            decreases self.dims.len() - i,
        {
            assert(self.dims@.take(i + 1).drop_last() =~= self.dims@.take(i as int));
            assert(product(self.dims@.take(i + 1)) <= usize::MAX);
            n = n * self.dims[i] as usize;
            i = i + 1;
        }
        assert(self.dims@.take(i as int) =~= self.dims@);
        n
    }

    pub fn is_empty(&self) -> (r: bool)
        ensures
            r == (product(self@.dims) == 0),
    {
        let mut zero = false;
        let mut i: usize = 0;
        while i < self.dims.len()
            invariant
                i <= self.dims.len(),
                zero == (product(self.dims@.take(i as int)) == 0),
            decreases self.dims.len() - i,
        {
            proof {
                let before = self.dims@.take(i as int);
                assert(self.dims@.take(i + 1).drop_last() =~= before);
                lemma_zero_product(product(before), self.dims[i as int] as nat);
            }
            if self.dims[i] == 0 {
                zero = true;
            }
            i = i + 1;
        }
        assert(self.dims@.take(i as int) =~= self.dims@);
        zero
    }

    /// An `i8` tensor's data. Empty if the type is another.
    pub fn as_i8(&self) -> (r: Vec<i8>)
        ensures
            r@ == i8_entries(self@),
    {
        let mut out: Vec<i8> = Vec::new();
        if self.dtype != DTYPE_I8 {
            assert(out@ =~= i8_entries(self@));
            return out;
        }
        let mut i: usize = 0;
        while i < self.data.len()
            invariant
                i <= self.data.len(),
                self.dtype == DTYPE_I8,
                out.len() == i,
                forall|j: int| 0 <= j < i ==> #[trigger] out[j] == signed_byte(self.data[j]),
            decreases self.data.len() - i,
        {
            out.push(to_signed_byte(self.data[i]));
            i = i + 1;
        }
        assert(out@ =~= i8_entries(self@));
        out
    }

    /// An `i32` tensor's data. Empty if the type is another.
    pub fn as_i32(&self) -> (r: Vec<i32>)
        ensures
            r@ == i32_entries(self@),
    {
        let mut out: Vec<i32> = Vec::new();
        if self.dtype != DTYPE_I32 {
            assert(out@ =~= i32_entries(self@));
            return out;
        }
        let n: usize = self.data.len() / 4;
        let mut i: usize = 0;
        while i < n
            invariant
                i <= n,
                n == self.data@.len() / 4,
                self.dtype == DTYPE_I32,
                out.len() == i,
                forall|j: int|
                    0 <= j < i ==> #[trigger] out[j] == signed_word(word_at(self.data@, j)),
            decreases n - i,
        {
            out.push(to_signed_word(get_word(self.data, i)));
            i = i + 1;
        }
        assert(out@ =~= i32_entries(self@));
        out
    }

    /// A binary32 tensor's data. Empty if the type is another.
    pub fn as_f32(&self) -> (r: Vec<F32>)
        ensures
            r@ == f32_entries(self@),
    {
        let mut out: Vec<F32> = Vec::new();
        if self.dtype != DTYPE_F32 {
            assert(out@ =~= f32_entries(self@));
            return out;
        }
        let n: usize = self.data.len() / 4;
        let mut i: usize = 0;
        while i < n
            invariant
                i <= n,
                n == self.data@.len() / 4,
                self.dtype == DTYPE_F32,
                out.len() == i,
                forall|j: int| 0 <= j < i ==> #[trigger] out[j] == num(word_at(self.data@, j)),
            decreases n - i,
        {
            out.push(num(get_word(self.data, i)));
            i = i + 1;
        }
        assert(out@ =~= f32_entries(self@));
        out
    }
}

proof fn lemma_zero_product(a: nat, b: nat)
    ensures
        a * b == 0 <==> a == 0 || b == 0,
{
    assert(a * b == 0 <==> a == 0 || b == 0) by (nonlinear_arith);
}

// ---------------------------------------------------------------------------------------------
// Parsing
// ---------------------------------------------------------------------------------------------
/// The number of bytes of an entry, if the type is known.
pub open spec fn unit_of(dtype: u8) -> nat {
    if dtype == DTYPE_I8 {
        1
    } else {
        4
    }
}

pub open spec fn known(dtype: u8) -> bool {
    dtype == DTYPE_I8 || dtype == DTYPE_I32 || dtype == DTYPE_F32
}

/// The error of a blob that is cut off.
pub open spec fn cut_off() -> Error {
    Error::BadWeights("truncated blob")
}

/// The tensor at `pos` and the position behind it.
pub open spec fn read_tensor(bytes: Seq<u8>, pos: int) -> Result<(TensorView, int), Error> {
    let len = bytes.len() as int;
    if pos + 2 > len {
        Err(cut_off())
    } else {
        let at_type = pos + 2 + crate::format::u16_at(bytes, pos);
        let name = bytes.subrange(pos + 2, at_type);
        if at_type > len {
            Err(cut_off())
        } else if !vstd::utf8::valid_utf8(name) {
            Err(Error::BadWeights("tensor name not utf-8"))
        } else if at_type + 6 > len {
            Err(cut_off())
        } else {
            let dtype = bytes[at_type];
            let ndim = bytes[at_type + 5] as int;
            let at_len = at_type + 6 + 4 * ndim;
            if at_len + 4 > len {
                Err(cut_off())
            } else {
                let dims = Seq::new(
                    ndim as nat,
                    |i: int| crate::format::u32_at(bytes, at_type + 6 + 4 * i),
                );
                let data_len = crate::format::u32_at(bytes, at_len) as int;
                let end = at_len + 4 + data_len;
                if end > len {
                    Err(cut_off())
                } else if !known(dtype) {
                    Err(Error::BadWeights("unknown dtype"))
                } else if product(dims) * unit_of(dtype) != data_len {
                    Err(Error::BadWeights("tensor data length != dims \u{d7} dtype size"))
                } else {
                    Ok(
                        (
                            TensorView {
                                name: vstd::utf8::decode_utf8(name),
                                dtype,
                                scale: num(crate::format::u32_at(bytes, at_type + 1)),
                                dims,
                                data: bytes.subrange(at_len + 4, end),
                            },
                            end,
                        ),
                    )
                }
            }
        }
    }
}

/// The `n` tensors from `pos` on, and the position behind them.
pub open spec fn read_tensors(bytes: Seq<u8>, pos: int, n: nat) -> Result<
    (Seq<TensorView>, int),
    Error,
>
    decreases n,
{
    if n == 0 {
        Ok((Seq::empty(), pos))
    } else {
        match read_tensors(bytes, pos, (n - 1) as nat) {
            Err(e) => Err(e),
            Ok((before, at)) => match read_tensor(bytes, at) {
                Err(e) => Err(e),
                Ok((t, end)) => Ok((before.push(t), end)),
            },
        }
    }
}

/// The tensors of a blob. The flags and anything behind the last tensor are ignored.
pub open spec fn read_blob(bytes: Seq<u8>) -> Result<Seq<TensorView>, Error> {
    if bytes.len() < 4 {
        Err(cut_off())
    } else if bytes.take(4) != magic() {
        Err(Error::BadWeights("bad magic (expected IW01)"))
    } else if bytes.len() < 6 {
        Err(cut_off())
    } else if crate::format::u16_at(bytes, 4) != VERSION {
        Err(Error::BadWeights("unsupported version"))
    } else if bytes.len() < 12 {
        Err(cut_off())
    } else {
        match read_tensors(bytes, 12, crate::format::u32_at(bytes, 8) as nat) {
            Err(e) => Err(e),
            Ok((tensors, _)) => Ok(tensors),
        }
    }
}

/// A parsed weights blob: the tensor directory, each borrowing the blob's bytes.
pub struct Weights<'a> {
    pub tensors: Vec<Tensor<'a>>,
}

impl<'a> View for Weights<'a> {
    type V = Seq<TensorView>;

    open spec fn view(&self) -> Seq<TensorView> {
        Seq::new(self.tensors@.len(), |i: int| self.tensors@[i]@)
    }
}

/// What a parse gives.
pub open spec fn parsed<'a>(r: Result<Weights<'a>, Error>) -> Result<Seq<TensorView>, Error> {
    match r {
        Ok(w) => Ok(w@),
        Err(e) => Err(e),
    }
}

/// A bounds-checked little-endian reader.
struct Reader<'a> {
    buf: &'a [u8],
    pos: usize,
}

impl<'a> Reader<'a> {
    spec fn ok(&self) -> bool {
        self.pos <= self.buf@.len()
    }

    fn new(buf: &'a [u8]) -> (r: Self)
        ensures
            r.ok(),
            r.buf@ == buf@,
            r.pos == 0,
    {
        Reader { buf, pos: 0 }
    }

    fn take(&mut self, n: usize) -> (r: Result<&'a [u8], Error>)
        requires
            old(self).ok(),
        ensures
            final(self).ok(),
            final(self).buf == old(self).buf,
            old(self).pos + n <= old(self).buf@.len() ==> r is Ok && r->Ok_0@ == old(
                self,
            ).buf@.subrange(old(self).pos as int, old(self).pos + n) && final(self).pos == old(
                self,
            ).pos + n,
            old(self).pos + n > old(self).buf@.len() ==> r == Err::<&'a [u8], Error>(cut_off())
                && final(self).pos == old(self).pos,
    {
        if n > self.buf.len() - self.pos {
            return Err(Error::BadWeights("truncated blob"));
        }
        let end: usize = self.pos + n;
        let s = slice_subrange(self.buf, self.pos, end);
        self.pos = end;
        Ok(s)
    }

    fn u8(&mut self) -> (r: Result<u8, Error>)
        requires
            old(self).ok(),
        ensures
            final(self).ok(),
            final(self).buf == old(self).buf,
            r == if old(self).pos + 1 > old(self).buf@.len() {
                Err(cut_off())
            } else {
                Ok(old(self).buf@[old(self).pos as int])
            },
            r is Ok ==> final(self).pos == old(self).pos + 1,
    {
        match self.take(1) {
            Ok(b) => Ok(b[0]),
            Err(e) => Err(e),
        }
    }

    fn u16(&mut self) -> (r: Result<u16, Error>)
        requires
            old(self).ok(),
        ensures
            final(self).ok(),
            final(self).buf == old(self).buf,
            r == if old(self).pos + 2 > old(self).buf@.len() {
                Err(cut_off())
            } else {
                Ok(crate::format::u16_at(old(self).buf@, old(self).pos as int))
            },
            r is Ok ==> final(self).pos == old(self).pos + 2,
    {
        match self.take(2) {
            Ok(b) => Ok(u16_from_le_bytes(b)),
            Err(e) => Err(e),
        }
    }

    fn u32(&mut self) -> (r: Result<u32, Error>)
        requires
            old(self).ok(),
        ensures
            final(self).ok(),
            final(self).buf == old(self).buf,
            r == if old(self).pos + 4 > old(self).buf@.len() {
                Err(cut_off())
            } else {
                Ok(crate::format::u32_at(old(self).buf@, old(self).pos as int))
            },
            r is Ok ==> final(self).pos == old(self).pos + 4,
    {
        match self.take(4) {
            Ok(b) => Ok(u32_from_le_bytes(b)),
            Err(e) => Err(e),
        }
    }

    /// The `n` dimensions at the current position.
    fn dims(&mut self, n: usize) -> (r: Result<Vec<u32>, Error>)
        requires
            old(self).ok(),
            n <= 255,
        ensures
            final(self).ok(),
            final(self).buf == old(self).buf,
            match r {
                Ok(dims) => old(self).pos + 4 * n <= old(self).buf@.len() && final(self).pos == old(
                    self,
                ).pos + 4 * n && dims@ == Seq::new(
                    n as nat,
                    |i: int| crate::format::u32_at(old(self).buf@, old(self).pos + 4 * i),
                ),
                Err(e) => old(self).pos + 4 * n > old(self).buf@.len() && e == cut_off(),
            },
    {
        let ghost start = self.pos as int;
        let mut dims: Vec<u32> = Vec::new();
        let mut i: usize = 0;
        while i < n
            invariant
                i <= n,
                n <= 255,
                self.ok(),
                self.buf == old(self).buf,
                start == old(self).pos,
                self.pos == start + 4 * i,
                dims.len() == i,
                forall|j: int|
                    0 <= j < i ==> #[trigger] dims[j] == crate::format::u32_at(
                        self.buf@,
                        start + 4 * j,
                    ),
            decreases n - i,
        {
            match self.u32() {
                Ok(d) => {
                    dims.push(d);
                },
                Err(e) => {
                    return Err(e);
                },
            }
            i = i + 1;
        }
        assert(dims@ =~= Seq::new(
            n as nat,
            |i: int| crate::format::u32_at(old(self).buf@, start + 4 * i),
        ));
        Ok(dims)
    }

    fn tensor(&mut self) -> (r: Result<Tensor<'a>, Error>)
        requires
            old(self).ok(),
        ensures
            final(self).ok(),
            final(self).buf == old(self).buf,
            match r {
                Ok(t) => read_tensor(old(self).buf@, old(self).pos as int) == Ok::<
                    (TensorView, int),
                    Error,
                >((t@, final(self).pos as int)),
                Err(e) => read_tensor(old(self).buf@, old(self).pos as int) == Err::<
                    (TensorView, int),
                    Error,
                >(e),
            },
    {
        let ghost bytes = self.buf@;
        let ghost pos = self.pos as int;
        let name_len: u16 = self.u16()?;
        let name_bytes = self.take(name_len as usize)?;
        let ghost at_type = self.pos as int;
        let name = match utf8_text(name_bytes) {
            Ok(name) => name,
            Err(_) => {
                return Err(Error::BadWeights("tensor name not utf-8"));
            },
        };
        let dtype: u8 = self.u8()?;
        let scale_bits: u32 = self.u32()?;
        let ndim: u8 = self.u8()?;
        let dims = self.dims(ndim as usize)?;
        let ghost at_len = self.pos as int;
        assert(dims@ =~= Seq::new(
            bytes[at_type + 5] as nat,
            |i: int| crate::format::u32_at(bytes, at_type + 6 + 4 * i),
        ));
        let data_len: u32 = self.u32()?;
        let data = self.take(data_len as usize)?;
        if dtype != DTYPE_I8 && dtype != DTYPE_I32 && dtype != DTYPE_F32 {
            return Err(Error::BadWeights("unknown dtype"));
        }
        let unit: u64 = if dtype == DTYPE_I8 {
            1
        } else {
            4
        };
        if !size_is(&dims, unit, data_len) {
            return Err(Error::BadWeights("tensor data length != dims \u{d7} dtype size"));
        }
        Ok(Tensor { name, dtype, scale: num(scale_bits), dims, data })
    }
}

/// `2^34`: more bytes than a tensor can have.
pub const TOO_MANY: u128 = 0x4_0000_0000;

spec fn capped(n: nat) -> nat {
    if n > TOO_MANY {
        TOO_MANY as nat
    } else {
        n
    }
}

/// Is the product of the dimensions, times `unit`, equal to `want`?
fn size_is(dims: &Vec<u32>, unit: u64, want: u32) -> (r: bool)
    requires
        unit == 1 || unit == 4,
    ensures
        r == (product(dims@) * unit == want),
{
    let mut zero = false;
    let mut n: u128 = 1;
    let mut i: usize = 0;
    while i < dims.len()
        invariant
            i <= dims.len(),
            zero == (product(dims@.take(i as int)) == 0),
            !zero ==> n == capped(product(dims@.take(i as int))),
            n <= TOO_MANY,
        decreases dims.len() - i,
    {
        let d: u32 = dims[i];
        let ghost before = product(dims@.take(i as int));
        proof {
            assert(dims@.take(i + 1).drop_last() =~= dims@.take(i as int));
            lemma_zero_product(before, d as nat);
            assert(n * d <= 0x4_0000_0000 * 0x1_0000_0000) by (nonlinear_arith)
                requires
                    0 <= n <= 0x4_0000_0000,
                    0 <= d <= 0x1_0000_0000,
            ;
        }
        if d == 0 {
            zero = true;
        }
        let m: u128 = n * d as u128;
        proof {
            if !zero && before > TOO_MANY {
                assert(before * d >= before) by (nonlinear_arith)
                    requires
                        d >= 1,
                        before >= 0,
                ;
                assert(n * d >= n) by (nonlinear_arith)
                    requires
                        d >= 1,
                        n >= 0,
                ;
            }
        }
        n =
        if m > TOO_MANY {
            TOO_MANY
        } else {
            m
        };
        i = i + 1;
    }
    assert(dims@.take(i as int) =~= dims@);
    if zero {
        assert(product(dims@) * unit == 0) by (nonlinear_arith)
            requires
                product(dims@) == 0,
        ;
        return want == 0;
    }
    let ghost whole = product(dims@);
    if unit == 1 {
        assert(whole * unit == whole) by (nonlinear_arith)
            requires
                unit == 1,
        ;
        n == want as u128
    } else {
        assert(whole * unit == 4 * whole) by (nonlinear_arith)
            requires
                unit == 4,
        ;
        n * 4 == want as u128
    }
}

proof fn lemma_tensors_error(bytes: Seq<u8>, pos: int, k: nat, n: nat, e: Error)
    requires
        k <= n,
        read_tensors(bytes, pos, k) == Err::<(Seq<TensorView>, int), Error>(e),
    ensures
        read_tensors(bytes, pos, n) == Err::<(Seq<TensorView>, int), Error>(e),
    decreases n - k,
{
    if k < n {
        lemma_tensors_error(bytes, pos, k + 1, n, e);
    }
}

fn parse_blob<'a>(blob: &'a [u8]) -> (r: Result<Weights<'a>, Error>)
    ensures
        parsed(r) == read_blob(blob@),
{
    let mut c = Reader::new(blob);
    let head = c.take(4)?;
    assert(blob@.subrange(0, 4) =~= blob@.take(4));
    if head[0] != 0x49 || head[1] != 0x57 || head[2] != 0x30 || head[3] != 0x31 {
        return Err(Error::BadWeights("bad magic (expected IW01)"));
    }
    assert(head@ =~= magic());
    let version: u16 = c.u16()?;
    if version != VERSION {
        return Err(Error::BadWeights("unsupported version"));
    }
    let _flags: u16 = c.u16()?;
    let count: u32 = c.u32()?;
    let mut tensors: Vec<Tensor<'a>> = Vec::new();
    let mut i: u32 = 0;
    let ghost mut view: Seq<TensorView> = Seq::empty();
    while i < count
        invariant
            i <= count,
            c.ok(),
            c.buf@ == blob@,
            blob@.len() >= 12,
            blob@.take(4) == magic(),
            crate::format::u16_at(blob@, 4) == VERSION,
            count == crate::format::u32_at(blob@, 8),
            view.len() == tensors@.len(),
            forall|j: int| 0 <= j < tensors@.len() ==> #[trigger] view[j] == tensors@[j]@,
            read_tensors(blob@, 12, i as nat) == Ok::<(Seq<TensorView>, int), Error>(
                (view, c.pos as int),
            ),
        decreases count - i,
    {
        match c.tensor() {
            Ok(t) => {
                proof {
                    view = view.push(t@);
                }
                tensors.push(t);
            },
            Err(e) => {
                proof {
                    lemma_tensors_error(blob@, 12, (i + 1) as nat, count as nat, e);
                }
                return Err(e);
            },
        }
        i = i + 1;
    }
    let w = Weights { tensors };
    assert(w@ =~= view);
    Ok(w)
}

/// The first tensor with the given name.
pub open spec fn find_tensor(tensors: Seq<TensorView>, name: Seq<char>) -> Option<TensorView>
    decreases tensors.len(),
{
    if tensors.len() == 0 {
        None
    } else if tensors[0].name == name {
        Some(tensors[0])
    } else {
        find_tensor(tensors.skip(1), name)
    }
}

/// What a look-up gives.
pub open spec fn looked_up<'a>(r: Option<&Tensor<'a>>) -> Option<TensorView> {
    match r {
        Some(t) => Some(t@),
        None => None,
    }
}

impl<'a> Weights<'a> {
    /// Parse a blob. Validates magic and version, and that each tensor's data length matches its
    /// type and element count.
    pub fn parse(blob: &'a [u8]) -> (r: Result<Weights<'a>, Error>)
        ensures
            parsed(r) == read_blob(blob@),
    {
        parse_blob(blob)
    }

    /// Look up a tensor by name.
    pub fn get(&self, name: &str) -> (r: Option<&Tensor<'a>>)
        ensures
            looked_up(r) == find_tensor(self@, name@),
    {
        let mut i: usize = 0;
        assert(self@.skip(0) =~= self@);
        while i < self.tensors.len()
            invariant
                i <= self.tensors.len(),
                find_tensor(self@, name@) == find_tensor(self@.skip(i as int), name@),
            decreases self.tensors.len() - i,
        {
            let ghost rest = self@.skip(i as int);
            assert(rest[0] == self.tensors@[i as int]@);
            if same_text(self.tensors[i].name, name) {
                return Some(&self.tensors[i]);
            }
            assert(rest.skip(1) =~= self@.skip(i + 1));
            i = i + 1;
        }
        None
    }

    /// The tensors in file order.
    pub fn tensors(&self) -> (r: &Vec<Tensor<'a>>)
        ensures
            r == &self.tensors,
    {
        &self.tensors
    }

    pub fn len(&self) -> (r: usize)
        ensures
            r == self@.len(),
    {
        self.tensors.len()
    }

    pub fn is_empty(&self) -> (r: bool)
        ensures
            r == (self@.len() == 0),
    {
        self.tensors.len() == 0
    }
}

// ---------------------------------------------------------------------------------------------
// Writing
// ---------------------------------------------------------------------------------------------
/// The bytes of a list of words.
pub open spec fn words_bytes(words: Seq<u32>) -> Seq<u8>
    decreases words.len(),
{
    if words.len() == 0 {
        Seq::empty()
    } else {
        words_bytes(words.drop_last()) + spec_u32_to_le_bytes(words.last())
    }
}

/// The bytes of a tensor. Lengths are written with the bits that the format has for them.
pub open spec fn tensor_bytes(t: TensorView) -> Seq<u8> {
    spec_u16_to_le_bytes((vstd::utf8::encode_utf8(t.name).len() % 0x1_0000) as u16)
        + vstd::utf8::encode_utf8(t.name) + seq![t.dtype] + spec_u32_to_le_bytes(t.scale.bits)
        + seq![(t.dims.len() % 0x100) as u8] + words_bytes(t.dims) + spec_u32_to_le_bytes(
        crate::format::count_of(t.data.len()),
    ) + t.data
}

/// The bytes of a list of tensors.
pub open spec fn tensors_bytes(tensors: Seq<TensorView>) -> Seq<u8>
    decreases tensors.len(),
{
    if tensors.len() == 0 {
        Seq::empty()
    } else {
        tensors_bytes(tensors.drop_last()) + tensor_bytes(tensors.last())
    }
}

/// The bytes of a blob that holds `count` tensors, whose bytes are `body`.
pub open spec fn blob_bytes(count: u32, body: Seq<u8>) -> Seq<u8> {
    magic() + spec_u16_to_le_bytes(VERSION) + spec_u16_to_le_bytes(0) + spec_u32_to_le_bytes(count)
        + body
}

/// The tensor that [`WeightsWriter::i8`] writes.
pub open spec fn i8_tensor(name: Seq<char>, dims: Seq<u32>, scale: F32, data: Seq<i8>) -> TensorView {
    TensorView {
        name,
        dtype: DTYPE_I8,
        scale,
        dims,
        data: Seq::new(data.len(), |i: int| byte_of(data[i])),
    }
}

/// The tensor that [`WeightsWriter::i32`] writes.
pub open spec fn i32_tensor(name: Seq<char>, dims: Seq<u32>, data: Seq<i32>) -> TensorView {
    TensorView {
        name,
        dtype: DTYPE_I32,
        scale: num(ZERO),
        dims,
        data: words_bytes(Seq::new(data.len(), |i: int| word_of(data[i]))),
    }
}

/// The tensor that [`WeightsWriter::floats`] writes.
pub open spec fn f32_tensor(name: Seq<char>, dims: Seq<u32>, data: Seq<F32>) -> TensorView {
    TensorView {
        name,
        dtype: DTYPE_F32,
        scale: num(ZERO),
        dims,
        data: words_bytes(Seq::new(data.len(), |i: int| data[i].bits)),
    }
}

/// Serializes the blob: a reference encoder for trainers.
pub struct WeightsWriter {
    pub tensors: Vec<u8>,
    pub count: u32,
}

impl Default for WeightsWriter {
    fn default() -> (r: Self)
        ensures
            r.tensors@ == Seq::<u8>::empty(),
            r.count == 0,
    {
        WeightsWriter { tensors: Vec::new(), count: 0 }
    }
}

fn put_bytes(out: &mut Vec<u8>, bytes: &[u8])
    ensures
        final(out)@ == old(out)@ + bytes@,
{
    let mut i: usize = 0;
    assert(out@ =~= old(out)@ + bytes@.take(0));
    while i < bytes.len()
        invariant
            i <= bytes.len(),
            out@ == old(out)@ + bytes@.take(i as int),
        decreases bytes.len() - i,
    {
        out.push(bytes[i]);
        i = i + 1;
        assert(out@ =~= old(out)@ + bytes@.take(i as int));
    }
    assert(bytes@.take(i as int) =~= bytes@);
}

fn put_word(out: &mut Vec<u8>, v: u32)
    ensures
        final(out)@ == old(out)@ + spec_u32_to_le_bytes(v),
{
    let mut b = u32_to_le_bytes(v);
    out.append(&mut b);
}

impl WeightsWriter {
    pub fn new() -> (r: Self)
        ensures
            r.tensors@ == Seq::<u8>::empty(),
            r.count == 0,
    {
        WeightsWriter { tensors: Vec::new(), count: 0 }
    }

    /// Append an `i8` tensor.
    pub fn i8(&mut self, name: &str, dims: &[u32], scale: F32, data: &[i8])
        requires
            old(self).count < u32::MAX,
        ensures
            final(self).tensors@ == old(self).tensors@ + tensor_bytes(
                i8_tensor(name@, dims@, scale, data@),
            ),
            final(self).count == old(self).count + 1,
    {
        let mut bytes: Vec<u8> = Vec::new();
        let mut i: usize = 0;
        while i < data.len()
            invariant
                i <= data.len(),
                bytes.len() == i,
                forall|j: int| 0 <= j < i ==> #[trigger] bytes[j] == byte_of(data[j]),
            decreases data.len() - i,
        {
            let v: i8 = data[i];
            bytes.push(
                if v < 0 {
                    (v as i16 + 256) as u8
                } else {
                    v as u8
                },
            );
            i = i + 1;
        }
        assert(bytes@ =~= i8_tensor(name@, dims@, scale, data@).data);
        self.push(name, DTYPE_I8, scale, dims, bytes.as_slice());
    }

    /// Append an `i32` tensor.
    pub fn i32(&mut self, name: &str, dims: &[u32], data: &[i32])
        requires
            old(self).count < u32::MAX,
        ensures
            final(self).tensors@ == old(self).tensors@ + tensor_bytes(
                i32_tensor(name@, dims@, data@),
            ),
            final(self).count == old(self).count + 1,
    {
        let ghost all = Seq::new(data@.len(), |i: int| word_of(data[i]));
        let mut bytes: Vec<u8> = Vec::new();
        let mut i: usize = 0;
        while i < data.len()
            invariant
                i <= data.len(),
                all == Seq::new(data@.len(), |i: int| word_of(data[i])),
                bytes@ == words_bytes(all.take(i as int)),
            decreases data.len() - i,
        {
            let v: i32 = data[i];
            let w: u32 = if v < 0 {
                (v as i64 + 0x1_0000_0000) as u32
            } else {
                v as u32
            };
            proof {
                assert(all.take(i + 1).drop_last() =~= all.take(i as int));
                assert(all.take(i + 1).last() == w);
            }
            put_word(&mut bytes, w);
            i = i + 1;
        }
        assert(all.take(i as int) =~= all);
        self.push(name, DTYPE_I32, num(ZERO), dims, bytes.as_slice());
    }

    /// Append a binary32 tensor.
    pub fn floats(&mut self, name: &str, dims: &[u32], data: &[F32])
        requires
            old(self).count < u32::MAX,
        ensures
            final(self).tensors@ == old(self).tensors@ + tensor_bytes(
                f32_tensor(name@, dims@, data@),
            ),
            final(self).count == old(self).count + 1,
    {
        let ghost all = Seq::new(data@.len(), |i: int| data[i].bits);
        let mut bytes: Vec<u8> = Vec::new();
        let mut i: usize = 0;
        while i < data.len()
            invariant
                i <= data.len(),
                all == Seq::new(data@.len(), |i: int| data[i].bits),
                bytes@ == words_bytes(all.take(i as int)),
            decreases data.len() - i,
        {
            proof {
                assert(all.take(i + 1).drop_last() =~= all.take(i as int));
                assert(all.take(i + 1).last() == data[i as int].bits);
            }
            put_word(&mut bytes, data[i].bits);
            i = i + 1;
        }
        assert(all.take(i as int) =~= all);
        self.push(name, DTYPE_F32, num(ZERO), dims, bytes.as_slice());
    }

    fn push(&mut self, name: &str, dtype: u8, scale: F32, dims: &[u32], data: &[u8])
        requires
            old(self).count < u32::MAX,
        ensures
            final(self).tensors@ == old(self).tensors@ + tensor_bytes(
                TensorView { name: name@, dtype, scale, dims: dims@, data: data@ },
            ),
            final(self).count == old(self).count + 1,
    {
        let ghost t = TensorView { name: name@, dtype, scale, dims: dims@, data: data@ };
        let ghost start = self.tensors@;
        let name_bytes = name.as_bytes();
        let mut len = u16_to_le_bytes((name_bytes.len() as u64 % 0x1_0000) as u16);
        self.tensors.append(&mut len);
        put_bytes(&mut self.tensors, name_bytes);
        self.tensors.push(dtype);
        put_word(&mut self.tensors, scale.bits);
        self.tensors.push((dims.len() as u64 % 0x100) as u8);
        let ghost before = self.tensors@;
        let mut i: usize = 0;
        assert(self.tensors@ =~= before + words_bytes(dims@.take(0)));
        while i < dims.len()
            invariant
                i <= dims.len(),
                self.count == old(self).count,
                self.tensors@ == before + words_bytes(dims@.take(i as int)),
            decreases dims.len() - i,
        {
            put_word(&mut self.tensors, dims[i]);
            proof {
                assert(dims@.take(i + 1).drop_last() =~= dims@.take(i as int));
                assert(self.tensors@ =~= before + words_bytes(dims@.take(i + 1)));
            }
            i = i + 1;
        }
        assert(dims@.take(i as int) =~= dims@);
        put_word(&mut self.tensors, (data.len() as u64 % 0x1_0000_0000) as u32);
        put_bytes(&mut self.tensors, data);
        self.count = self.count + 1;
        assert(self.tensors@ =~= start + tensor_bytes(t));
    }

    /// The blob that holds the tensors.
    pub fn finish(self) -> (r: Vec<u8>)
        ensures
            r@ == blob_bytes(self.count, self.tensors@),
    {
        let mut out: Vec<u8> = Vec::new();
        out.push(0x49);
        out.push(0x57);
        out.push(0x30);
        out.push(0x31);
        assert(out@ =~= magic());
        let mut version = u16_to_le_bytes(VERSION);
        out.append(&mut version);
        let mut flags = u16_to_le_bytes(0);
        out.append(&mut flags);
        put_word(&mut out, self.count);
        put_bytes(&mut out, self.tensors.as_slice());
        out
    }
}

// ---------------------------------------------------------------------------------------------
// Reading back what was written
// ---------------------------------------------------------------------------------------------
proof fn lemma_words_len(words: Seq<u32>)
    ensures
        words_bytes(words).len() == 4 * words.len(),
    decreases words.len(),
{
    if words.len() > 0 {
        lemma_words_len(words.drop_last());
        lemma_auto_spec_u32_to_from_le_bytes();
        assert(spec_u32_to_le_bytes(words.last()).len() == 4);
    }
}

/// Where a word stands in a list.
proof fn lemma_word_in_list(words: Seq<u32>, i: int)
    requires
        0 <= i < words.len(),
    ensures
        words_bytes(words).len() == 4 * words.len(),
        words_bytes(words).subrange(4 * i, 4 * i + 4) == spec_u32_to_le_bytes(words[i]),
    decreases words.len(),
{
    let rest = words.drop_last();
    let all = words_bytes(words);
    lemma_words_len(words);
    lemma_words_len(rest);
    lemma_auto_spec_u32_to_from_le_bytes();
    assert(spec_u32_to_le_bytes(words.last()).len() == 4);
    if i == words.len() - 1 {
        assert(all.subrange(4 * i, 4 * i + 4) =~= spec_u32_to_le_bytes(words[i]));
    } else {
        lemma_word_in_list(rest, i);
        assert(all.subrange(4 * i, 4 * i + 4) =~= words_bytes(rest).subrange(4 * i, 4 * i + 4));
        assert(rest[i] == words[i]);
    }
}

/// What is written as words is read as the same words.
proof fn lemma_words_back(list: Seq<u32>)
    ensures
        words(words_bytes(list)) == list,
{
    lemma_words_len(list);
    lemma_auto_spec_u32_to_from_le_bytes();
    assert forall|i: int| 0 <= i < list.len() implies #[trigger] words(words_bytes(list))[i]
        == list[i] by {
        lemma_word_in_list(list, i);
        assert(spec_u32_to_le_bytes(list[i]).len() == 4);
    }
    assert(words(words_bytes(list)) =~= list);
}

/// The entries of a tensor come back as they were written.
pub proof fn law_entries_come_back(
    name: Seq<char>,
    dims: Seq<u32>,
    scale: F32,
    bytes: Seq<i8>,
    ints: Seq<i32>,
    floats: Seq<F32>,
)
    ensures
        i8_entries(i8_tensor(name, dims, scale, bytes)) == bytes,
        i32_entries(i32_tensor(name, dims, ints)) == ints,
        f32_entries(f32_tensor(name, dims, floats)) == floats,
{
    assert(i8_entries(i8_tensor(name, dims, scale, bytes)) =~= bytes);
    lemma_words_back(Seq::new(ints.len(), |i: int| word_of(ints[i])));
    assert(i32_entries(i32_tensor(name, dims, ints)) =~= ints);
    lemma_words_back(Seq::new(floats.len(), |i: int| floats[i].bits));
    assert(f32_entries(f32_tensor(name, dims, floats)) =~= floats);
}

/// Does the tensor fit the format: a known type, as much data as its dimensions ask for, and
/// lengths within the bits that the format has for them?
pub open spec fn writable(t: TensorView) -> bool {
    &&& known(t.dtype)
    &&& vstd::utf8::encode_utf8(t.name).len() <= u16::MAX
    &&& t.dims.len() <= u8::MAX
    &&& t.data.len() <= u32::MAX
    &&& product(t.dims) * unit_of(t.dtype) == t.data.len()
}

/// A tensor is read back from between whatever surrounds it.
#[verifier::rlimit(40)]
proof fn lemma_tensor_back(pre: Seq<u8>, t: TensorView, post: Seq<u8>)
    requires
        writable(t),
    ensures
        read_tensor(pre + tensor_bytes(t) + post, pre.len() as int) == Ok::<
            (TensorView, int),
            Error,
        >((t, (pre.len() + tensor_bytes(t).len()) as int)),
{
    let bytes = pre + tensor_bytes(t) + post;
    let name = vstd::utf8::encode_utf8(t.name);
    let pos = pre.len() as int;
    lemma_auto_spec_u16_to_from_le_bytes();
    lemma_auto_spec_u32_to_from_le_bytes();
    let len16 = spec_u16_to_le_bytes(name.len() as u16);
    assert(len16.len() == 2);
    lemma_words_len(t.dims);
    let scale = spec_u32_to_le_bytes(t.scale.bits);
    assert(scale.len() == 4);
    let size = spec_u32_to_le_bytes(t.data.len() as u32);
    assert(size.len() == 4);
    let body = words_bytes(t.dims);
    assert(tensor_bytes(t) == len16 + name + seq![t.dtype] + scale + seq![t.dims.len() as u8] + body
        + size + t.data);
    assert(bytes.subrange(pos, pos + 2) =~= len16);
    let at_type = pos + 2 + name.len();
    assert(bytes.subrange(pos + 2, at_type) =~= name);
    vstd::utf8::encode_utf8_valid_utf8(t.name);
    vstd::utf8::encode_utf8_decode_utf8(t.name);
    assert(bytes[at_type] == t.dtype);
    assert(bytes.subrange(at_type + 1, at_type + 5) =~= scale);
    assert(bytes[at_type + 5] == t.dims.len() as u8);
    let at_len = at_type + 6 + 4 * t.dims.len();
    assert(bytes.subrange(at_type + 6, at_len) =~= body);
    assert(bytes.subrange(at_len, at_len + 4) =~= size);
    let end = at_len + 4 + t.data.len();
    assert(bytes.subrange(at_len + 4, end) =~= t.data);
    let dims = Seq::new(
        t.dims.len(),
        |i: int| crate::format::u32_at(bytes, at_type + 6 + 4 * i),
    );
    assert(dims =~= t.dims) by {
        assert forall|i: int| 0 <= i < t.dims.len() implies #[trigger] dims[i] == t.dims[i] by {
            lemma_word_in_list(t.dims, i);
            assert(bytes.subrange(at_type + 6 + 4 * i, at_type + 6 + 4 * i + 4) =~= body.subrange(
                4 * i,
                4 * i + 4,
            ));
            assert(spec_u32_to_le_bytes(t.dims[i]).len() == 4);
        }
    }
    assert(tensor_bytes(t).len() == end - pos);
}

proof fn lemma_tensors_back(pre: Seq<u8>, tensors: Seq<TensorView>, post: Seq<u8>)
    requires
        forall|i: int| 0 <= i < tensors.len() ==> writable(#[trigger] tensors[i]),
    ensures
        read_tensors(pre + tensors_bytes(tensors) + post, pre.len() as int, tensors.len()) == Ok::<
            (Seq<TensorView>, int),
            Error,
        >((tensors, (pre.len() + tensors_bytes(tensors).len()) as int)),
    decreases tensors.len(),
{
    let bytes = pre + tensors_bytes(tensors) + post;
    if tensors.len() > 0 {
        let rest = tensors.drop_last();
        let last = tensors.last();
        assert forall|i: int| 0 <= i < rest.len() implies writable(#[trigger] rest[i]) by {
            assert(writable(tensors[i]));
        }
        assert(writable(tensors[tensors.len() - 1]));
        lemma_tensors_back(pre, rest, tensor_bytes(last) + post);
        assert(bytes =~= pre + tensors_bytes(rest) + (tensor_bytes(last) + post));
        lemma_tensor_back(pre + tensors_bytes(rest), last, post);
        assert(bytes =~= (pre + tensors_bytes(rest)) + tensor_bytes(last) + post);
        assert(rest.push(last) =~= tensors);
    } else {
        assert(tensors =~= Seq::<TensorView>::empty());
    }
}

/// A blob that is written and parsed gives back the tensors as they were.
pub proof fn law_parse_gives_back_what_was_written(tensors: Seq<TensorView>)
    requires
        tensors.len() <= u32::MAX,
        forall|i: int| 0 <= i < tensors.len() ==> writable(#[trigger] tensors[i]),
    ensures
        read_blob(blob_bytes(tensors.len() as u32, tensors_bytes(tensors))) == Ok::<
            Seq<TensorView>,
            Error,
        >(tensors),
{
    let count = tensors.len() as u32;
    let bytes = blob_bytes(count, tensors_bytes(tensors));
    lemma_auto_spec_u16_to_from_le_bytes();
    lemma_auto_spec_u32_to_from_le_bytes();
    let version = spec_u16_to_le_bytes(VERSION);
    let flags = spec_u16_to_le_bytes(0);
    let size = spec_u32_to_le_bytes(count);
    assert(version.len() == 2 && flags.len() == 2 && size.len() == 4);
    let head = magic() + version + flags + size;
    assert(bytes =~= head + tensors_bytes(tensors) + Seq::<u8>::empty());
    lemma_tensors_back(head, tensors, Seq::empty());
    assert(bytes.take(4) =~= magic());
    assert(bytes.subrange(4, 6) =~= version);
    assert(bytes.subrange(8, 12) =~= size);
}

/// A tensor that is cut off is refused; one that is not is read as before.
proof fn lemma_tensor_cut(bytes: Seq<u8>, n: int, pos: int)
    requires
        0 <= pos <= n <= bytes.len(),
        read_tensor(bytes, pos) is Ok,
    ensures
        ({
            let whole = read_tensor(bytes, pos);
            &&& whole->Ok_0.1 >= pos
            &&& read_tensor(bytes.take(n), pos) == if whole->Ok_0.1 <= n {
                whole
            } else {
                Err(cut_off())
            }
        }),
{
    let cut = bytes.take(n);
    let at_type = pos + 2 + crate::format::u16_at(bytes, pos);
    if pos + 2 <= n {
        assert(cut.subrange(pos, pos + 2) =~= bytes.subrange(pos, pos + 2));
        if at_type <= n {
            assert(cut.subrange(pos + 2, at_type) =~= bytes.subrange(pos + 2, at_type));
        }
        if at_type + 6 <= n {
            let ndim = bytes[at_type + 5] as int;
            let at_len = at_type + 6 + 4 * ndim;
            assert(cut.subrange(at_type + 1, at_type + 5) =~= bytes.subrange(
                at_type + 1,
                at_type + 5,
            ));
            if at_len + 4 <= n {
                assert(cut.subrange(at_len, at_len + 4) =~= bytes.subrange(at_len, at_len + 4));
                let dims = Seq::new(
                    ndim as nat,
                    |i: int| crate::format::u32_at(bytes, at_type + 6 + 4 * i),
                );
                let same = Seq::new(
                    ndim as nat,
                    |i: int| crate::format::u32_at(cut, at_type + 6 + 4 * i),
                );
                assert(same =~= dims) by {
                    assert forall|i: int| 0 <= i < ndim implies #[trigger] same[i] == dims[i] by {
                        let at = at_type + 6 + 4 * i;
                        assert(cut.subrange(at, at + 4) =~= bytes.subrange(at, at + 4));
                    }
                }
                let end = at_len + 4 + crate::format::u32_at(bytes, at_len);
                if end <= n {
                    assert(cut.subrange(at_len + 4, end) =~= bytes.subrange(at_len + 4, end));
                }
            }
        }
    }
}

proof fn lemma_tensors_cut(bytes: Seq<u8>, n: int, pos: int, count: nat)
    requires
        0 <= pos <= n <= bytes.len(),
        read_tensors(bytes, pos, count) is Ok,
    ensures
        ({
            let whole = read_tensors(bytes, pos, count);
            &&& whole->Ok_0.1 >= pos
            &&& read_tensors(bytes.take(n), pos, count) == if whole->Ok_0.1 <= n {
                whole
            } else {
                Err(cut_off())
            }
        }),
    decreases count,
{
    if count > 0 {
        let before = (count - 1) as nat;
        lemma_tensors_cut(bytes, n, pos, before);
        let at = read_tensors(bytes, pos, before)->Ok_0.1;
        if at <= n {
            lemma_tensor_cut(bytes, n, at);
        } else {
            lemma_tensor_end(bytes, at);
        }
    }
}

proof fn lemma_tensor_end(bytes: Seq<u8>, pos: int)
    requires
        read_tensor(bytes, pos) is Ok,
    ensures
        read_tensor(bytes, pos)->Ok_0.1 >= pos,
{
}

/// Every proper prefix of a written blob is refused as cut off.
pub proof fn law_every_prefix_is_refused(tensors: Seq<TensorView>, n: int)
    requires
        tensors.len() <= u32::MAX,
        forall|i: int| 0 <= i < tensors.len() ==> writable(#[trigger] tensors[i]),
        0 <= n < blob_bytes(tensors.len() as u32, tensors_bytes(tensors)).len(),
    ensures
        read_blob(blob_bytes(tensors.len() as u32, tensors_bytes(tensors)).take(n)) == Err::<
            Seq<TensorView>,
            Error,
        >(cut_off()),
{
    let count = tensors.len() as u32;
    let bytes = blob_bytes(count, tensors_bytes(tensors));
    let cut = bytes.take(n);
    lemma_auto_spec_u16_to_from_le_bytes();
    lemma_auto_spec_u32_to_from_le_bytes();
    let version = spec_u16_to_le_bytes(VERSION);
    let flags = spec_u16_to_le_bytes(0);
    let size = spec_u32_to_le_bytes(count);
    assert(version.len() == 2 && flags.len() == 2 && size.len() == 4);
    let head = magic() + version + flags + size;
    assert(bytes =~= head + tensors_bytes(tensors) + Seq::<u8>::empty());
    lemma_tensors_back(head, tensors, Seq::empty());
    if n >= 4 {
        assert(cut.take(4) =~= magic());
    }
    if n >= 6 {
        assert(cut.subrange(4, 6) =~= version);
    }
    if n >= 12 {
        assert(cut.subrange(8, 12) =~= size);
        lemma_tensors_cut(bytes, n, 12, tensors.len());
    }
}

proof fn lemma_tensor_more(bytes: Seq<u8>, more: Seq<u8>, pos: int)
    requires
        0 <= pos,
        read_tensor(bytes, pos) is Ok,
    ensures
        read_tensor(bytes + more, pos) == read_tensor(bytes, pos),
        pos <= read_tensor(bytes, pos)->Ok_0.1 <= bytes.len(),
{
    let all = bytes + more;
    let at_type = pos + 2 + crate::format::u16_at(bytes, pos);
    let ndim = bytes[at_type + 5] as int;
    let at_len = at_type + 6 + 4 * ndim;
    let end = at_len + 4 + crate::format::u32_at(bytes, at_len);
    assert(all.subrange(pos, pos + 2) =~= bytes.subrange(pos, pos + 2));
    assert(all.subrange(pos + 2, at_type) =~= bytes.subrange(pos + 2, at_type));
    assert(all.subrange(at_type + 1, at_type + 5) =~= bytes.subrange(at_type + 1, at_type + 5));
    assert(all.subrange(at_len, at_len + 4) =~= bytes.subrange(at_len, at_len + 4));
    assert(all.subrange(at_len + 4, end) =~= bytes.subrange(at_len + 4, end));
    let dims = Seq::new(ndim as nat, |i: int| crate::format::u32_at(bytes, at_type + 6 + 4 * i));
    let same = Seq::new(ndim as nat, |i: int| crate::format::u32_at(all, at_type + 6 + 4 * i));
    assert(same =~= dims) by {
        assert forall|i: int| 0 <= i < ndim implies #[trigger] same[i] == dims[i] by {
            let at = at_type + 6 + 4 * i;
            assert(all.subrange(at, at + 4) =~= bytes.subrange(at, at + 4));
        }
    }
}

proof fn lemma_tensors_more(bytes: Seq<u8>, more: Seq<u8>, pos: int, count: nat)
    requires
        0 <= pos,
        read_tensors(bytes, pos, count) is Ok,
    ensures
        read_tensors(bytes + more, pos, count) == read_tensors(bytes, pos, count),
        pos <= read_tensors(bytes, pos, count)->Ok_0.1,
    decreases count,
{
    if count > 0 {
        let before = (count - 1) as nat;
        lemma_tensors_more(bytes, more, pos, before);
        lemma_tensor_more(bytes, more, read_tensors(bytes, pos, before)->Ok_0.1);
    }
}

/// Whatever follows the last tensor is ignored: bytes that parse give the same tensors with any
/// others behind them.
pub proof fn law_bytes_behind_the_last_tensor_are_ignored(bytes: Seq<u8>, more: Seq<u8>)
    requires
        read_blob(bytes) is Ok,
    ensures
        read_blob(bytes + more) == read_blob(bytes),
{
    let all = bytes + more;
    assert(all.take(4) =~= bytes.take(4));
    assert(all.subrange(4, 6) =~= bytes.subrange(4, 6));
    assert(all.subrange(8, 12) =~= bytes.subrange(8, 12));
    lemma_tensors_more(bytes, more, 12, crate::format::u32_at(bytes, 8) as nat);
}

} // verus!
