//! The `.ink` binary container. Layout, all little-endian:
//!
//! ```text
//! magic:         [u8; 4] = "INK1"
//! version:       u16     = 1
//! flags:         u16     = 0  (reserved)
//! source_width:  binary32
//! source_height: binary32
//! stroke_count:  u32
//! repeat stroke_count times:
//!     point_count: u32
//!     repeat point_count times (28 bytes each):
//!         x, y, pressure, tilt_x, tilt_y : 5 x binary32
//!         t_us                           : u64
//! ```
//!
//! There is no file I/O here: `encode` returns bytes, `decode` reads bytes.
use crate::error::Error;
use crate::float::{num, F32};
use crate::stroke::{Ink, InkView, Point, Stroke};
use vstd::bytes::*;
use vstd::prelude::*;
use vstd::slice::slice_subrange;

verus! {

/// The format version.
pub const VERSION: u16 = 1;

/// `INK1`.
pub open spec fn magic() -> Seq<u8> {
    seq![0x49u8, 0x4e, 0x4b, 0x31]
}

fn magic_bytes() -> (r: [u8; 4])
    ensures
        r@ == magic(),
{
    let r: [u8; 4] = [0x49, 0x4e, 0x4b, 0x31];
    assert(r@ =~= magic());
    r
}

// ---------------------------------------------------------------------------------------------
// Encoding
// ---------------------------------------------------------------------------------------------
/// A length as it is written: its low 32 bits.
pub open spec fn count_of(n: nat) -> u32 {
    (n % 0x1_0000_0000) as u32
}

/// The bytes of a point.
pub open spec fn point_bytes(p: Point) -> Seq<u8> {
    spec_u32_to_le_bytes(p.x.bits) + spec_u32_to_le_bytes(p.y.bits) + spec_u32_to_le_bytes(
        p.pressure.bits,
    ) + spec_u32_to_le_bytes(p.tilt_x.bits) + spec_u32_to_le_bytes(p.tilt_y.bits)
        + spec_u64_to_le_bytes(p.t_us)
}

/// The bytes of a list of points.
pub open spec fn points_bytes(points: Seq<Point>) -> Seq<u8>
    decreases points.len(),
{
    if points.len() == 0 {
        Seq::empty()
    } else {
        points_bytes(points.drop_last()) + point_bytes(points.last())
    }
}

/// The bytes of a stroke.
pub open spec fn stroke_bytes(points: Seq<Point>) -> Seq<u8> {
    spec_u32_to_le_bytes(count_of(points.len())) + points_bytes(points)
}

/// The bytes of a list of strokes.
pub open spec fn strokes_bytes(strokes: Seq<Seq<Point>>) -> Seq<u8>
    decreases strokes.len(),
{
    if strokes.len() == 0 {
        Seq::empty()
    } else {
        strokes_bytes(strokes.drop_last()) + stroke_bytes(strokes.last())
    }
}

/// The bytes before the strokes.
pub open spec fn header_bytes(ink: InkView) -> Seq<u8> {
    magic() + spec_u16_to_le_bytes(VERSION) + spec_u16_to_le_bytes(0) + spec_u32_to_le_bytes(
        ink.source_width.bits,
    ) + spec_u32_to_le_bytes(ink.source_height.bits) + spec_u32_to_le_bytes(
        count_of(ink.strokes.len()),
    )
}

/// The bytes of a drawing.
pub open spec fn ink_bytes(ink: InkView) -> Seq<u8> {
    header_bytes(ink) + strokes_bytes(ink.strokes)
}

fn put_u16(out: &mut Vec<u8>, v: u16)
    ensures
        final(out)@ == old(out)@ + spec_u16_to_le_bytes(v),
{
    let mut b = u16_to_le_bytes(v);
    out.append(&mut b);
}

pub(crate) fn put_u32(out: &mut Vec<u8>, v: u32)
    ensures
        final(out)@ == old(out)@ + spec_u32_to_le_bytes(v),
{
    let mut b = u32_to_le_bytes(v);
    out.append(&mut b);
}

fn put_u64(out: &mut Vec<u8>, v: u64)
    ensures
        final(out)@ == old(out)@ + spec_u64_to_le_bytes(v),
{
    let mut b = u64_to_le_bytes(v);
    out.append(&mut b);
}

pub(crate) fn put_count(out: &mut Vec<u8>, n: usize)
    ensures
        final(out)@ == old(out)@ + spec_u32_to_le_bytes(count_of(n as nat)),
{
    put_u32(out, (n as u64 % 0x1_0000_0000) as u32);
}

fn put_point(out: &mut Vec<u8>, p: &Point)
    ensures
        final(out)@ == old(out)@ + point_bytes(*p),
{
    put_u32(out, p.x.bits);
    put_u32(out, p.y.bits);
    put_u32(out, p.pressure.bits);
    put_u32(out, p.tilt_x.bits);
    put_u32(out, p.tilt_y.bits);
    put_u64(out, p.t_us);
    assert(out@ =~= old(out)@ + point_bytes(*p));
}

fn put_stroke(out: &mut Vec<u8>, s: &Stroke)
    ensures
        final(out)@ == old(out)@ + stroke_bytes(s@),
{
    put_count(out, s.points.len());
    let ghost start = out@;
    let mut i: usize = 0;
    assert(out@ =~= start + points_bytes(s.points@.take(0)));
    while i < s.points.len()
        invariant
            i <= s.points.len(),
            out@ == start + points_bytes(s.points@.take(i as int)),
        decreases s.points.len() - i,
    {
        put_point(out, &s.points[i]);
        proof {
            assert(s.points@.take(i + 1).drop_last() =~= s.points@.take(i as int));
            assert(out@ =~= start + points_bytes(s.points@.take(i + 1)));
        }
        i = i + 1;
    }
    assert(s.points@.take(i as int) =~= s.points@);
    assert(out@ =~= old(out)@ + stroke_bytes(s@));
}

// ---------------------------------------------------------------------------------------------
// Decoding
// ---------------------------------------------------------------------------------------------
/// The error of a read of `n` bytes at `pos`.
pub open spec fn short(bytes: Seq<u8>, pos: int, n: int) -> Error {
    Error::Truncated {
        offset: pos as usize,
        needed: n as usize,
        available: (bytes.len() - pos) as usize,
    }
}

/// The `u32` at `pos`.
pub open spec fn u32_at(bytes: Seq<u8>, pos: int) -> u32 {
    spec_u32_from_le_bytes(bytes.subrange(pos, pos + 4))
}

/// The `u16` at `pos`.
pub open spec fn u16_at(bytes: Seq<u8>, pos: int) -> u16 {
    spec_u16_from_le_bytes(bytes.subrange(pos, pos + 2))
}

/// The `u64` at `pos`.
pub open spec fn u64_at(bytes: Seq<u8>, pos: int) -> u64 {
    spec_u64_from_le_bytes(bytes.subrange(pos, pos + 8))
}

/// The point at `pos`, or the error of the first of its fields that is cut off.
pub open spec fn read_point(bytes: Seq<u8>, pos: int) -> Result<Point, Error> {
    let len = bytes.len();
    if pos + 4 > len {
        Err(short(bytes, pos, 4))
    } else if pos + 8 > len {
        Err(short(bytes, pos + 4, 4))
    } else if pos + 12 > len {
        Err(short(bytes, pos + 8, 4))
    } else if pos + 16 > len {
        Err(short(bytes, pos + 12, 4))
    } else if pos + 20 > len {
        Err(short(bytes, pos + 16, 4))
    } else if pos + 28 > len {
        Err(short(bytes, pos + 20, 8))
    } else {
        Ok(
            Point {
                x: num(u32_at(bytes, pos)),
                y: num(u32_at(bytes, pos + 4)),
                pressure: num(u32_at(bytes, pos + 8)),
                tilt_x: num(u32_at(bytes, pos + 12)),
                tilt_y: num(u32_at(bytes, pos + 16)),
                t_us: u64_at(bytes, pos + 20),
            },
        )
    }
}

/// The `n` points from `pos` on.
pub open spec fn read_points(bytes: Seq<u8>, pos: int, n: nat) -> Result<Seq<Point>, Error>
    decreases n,
{
    if n == 0 {
        Ok(Seq::empty())
    } else {
        match read_points(bytes, pos, (n - 1) as nat) {
            Err(e) => Err(e),
            Ok(before) => match read_point(bytes, pos + 28 * (n - 1)) {
                Err(e) => Err(e),
                Ok(p) => Ok(before.push(p)),
            },
        }
    }
}

/// The stroke at `pos`.
pub open spec fn read_stroke(bytes: Seq<u8>, pos: int) -> Result<Seq<Point>, Error> {
    if pos + 4 > bytes.len() {
        Err(short(bytes, pos, 4))
    } else {
        read_points(bytes, pos + 4, u32_at(bytes, pos) as nat)
    }
}

/// The `n` strokes from `pos` on, and the position behind them.
pub open spec fn read_strokes(bytes: Seq<u8>, pos: int, n: nat) -> Result<
    (Seq<Seq<Point>>, int),
    Error,
>
    decreases n,
{
    if n == 0 {
        Ok((Seq::empty(), pos))
    } else {
        match read_strokes(bytes, pos, (n - 1) as nat) {
            Err(e) => Err(e),
            Ok((before, at)) => match read_stroke(bytes, at) {
                Err(e) => Err(e),
                Ok(points) => Ok((before.push(points), at + 4 + 28 * points.len())),
            },
        }
    }
}

/// The drawing in a buffer. The magic and the version are checked first; whatever is cut off is
/// reported where it starts. The flags and anything behind the last stroke are ignored.
pub open spec fn read_ink(bytes: Seq<u8>) -> Result<InkView, Error> {
    if bytes.len() < 4 {
        Err(short(bytes, 0, 4))
    } else if bytes.take(4) != magic() {
        Err(bad_magic(bytes))
    } else if bytes.len() < 6 {
        Err(short(bytes, 4, 2))
    } else if u16_at(bytes, 4) != VERSION {
        Err(Error::UnsupportedVersion(u16_at(bytes, 4), VERSION))
    } else if bytes.len() < 8 {
        Err(short(bytes, 6, 2))
    } else if bytes.len() < 12 {
        Err(short(bytes, 8, 4))
    } else if bytes.len() < 16 {
        Err(short(bytes, 12, 4))
    } else if bytes.len() < 20 {
        Err(short(bytes, 16, 4))
    } else {
        match read_strokes(bytes, 20, u32_at(bytes, 16) as nat) {
            Err(e) => Err(e),
            Ok((strokes, _)) => Ok(
                InkView {
                    source_width: num(u32_at(bytes, 8)),
                    source_height: num(u32_at(bytes, 12)),
                    strokes,
                },
            ),
        }
    }
}

/// Does the error report the first four bytes as a bad magic?
pub open spec fn reports_magic(e: Error, bytes: Seq<u8>) -> bool {
    match e {
        Error::BadMagic { found, expected } => found@ == bytes.take(4) && expected@ == magic(),
        _ => false,
    }
}

/// The error of a buffer that starts with another magic.
pub open spec fn bad_magic(bytes: Seq<u8>) -> Error {
    choose|e: Error| reports_magic(e, bytes)
}

/// What a decoding gives.
pub open spec fn decoded(r: Result<Ink, Error>) -> Result<InkView, Error> {
    match r {
        Ok(ink) => Ok(ink@),
        Err(e) => Err(e),
    }
}

/// A bounds-checked little-endian reader.
struct Cursor<'a> {
    buf: &'a [u8],
    pos: usize,
}

impl<'a> Cursor<'a> {
    spec fn ok(&self) -> bool {
        self.pos <= self.buf@.len()
    }

    fn new(buf: &'a [u8]) -> (r: Self)
        ensures
            r.ok(),
            r.buf@ == buf@,
            r.pos == 0,
    {
        Cursor { buf, pos: 0 }
    }

    fn take(&mut self, n: usize) -> (r: Result<&'a [u8], Error>)
        requires
            old(self).ok(),
        ensures
            final(self).ok(),
            final(self).buf == old(self).buf,
            old(self).pos + n <= old(self).buf@.len() ==> r is Ok && r->Ok_0@ == old(
                self,
            ).buf@.subrange(old(self).pos as int, old(self).pos + n) && final(self).pos == old(
                self,
            ).pos + n,
            old(self).pos + n > old(self).buf@.len() ==> r == Err::<&'a [u8], Error>(
                short(old(self).buf@, old(self).pos as int, n as int),
            ) && final(self).pos == old(self).pos,
    {
        let available: usize = self.buf.len() - self.pos;
        if n > available {
            return Err(Error::Truncated { offset: self.pos, needed: n, available });
        }
        let end: usize = self.pos + n;
        let s = slice_subrange(self.buf, self.pos, end);
        self.pos = end;
        Ok(s)
    }

    fn take_u16(&mut self) -> (r: Result<u16, Error>)
        requires
            old(self).ok(),
        ensures
            final(self).ok(),
            final(self).buf == old(self).buf,
            r == if old(self).pos + 2 > old(self).buf@.len() {
                Err(short(old(self).buf@, old(self).pos as int, 2))
            } else {
                Ok(u16_at(old(self).buf@, old(self).pos as int))
            },
            r is Ok ==> final(self).pos == old(self).pos + 2,
    {
        match self.take(2) {
            Ok(b) => Ok(u16_from_le_bytes(b)),
            Err(e) => Err(e),
        }
    }

    fn take_u32(&mut self) -> (r: Result<u32, Error>)
        requires
            old(self).ok(),
        ensures
            final(self).ok(),
            final(self).buf == old(self).buf,
            r == if old(self).pos + 4 > old(self).buf@.len() {
                Err(short(old(self).buf@, old(self).pos as int, 4))
            } else {
                Ok(u32_at(old(self).buf@, old(self).pos as int))
            },
            r is Ok ==> final(self).pos == old(self).pos + 4,
    {
        match self.take(4) {
            Ok(b) => Ok(u32_from_le_bytes(b)),
            Err(e) => Err(e),
        }
    }

    fn take_u64(&mut self) -> (r: Result<u64, Error>)
        requires
            old(self).ok(),
        ensures
            final(self).ok(),
            final(self).buf == old(self).buf,
            r == if old(self).pos + 8 > old(self).buf@.len() {
                Err(short(old(self).buf@, old(self).pos as int, 8))
            } else {
                Ok(u64_at(old(self).buf@, old(self).pos as int))
            },
            r is Ok ==> final(self).pos == old(self).pos + 8,
    {
        match self.take(8) {
            Ok(b) => Ok(u64_from_le_bytes(b)),
            Err(e) => Err(e),
        }
    }

    fn take_f32(&mut self) -> (r: Result<F32, Error>)
        requires
            old(self).ok(),
        ensures
            final(self).ok(),
            final(self).buf == old(self).buf,
            r == if old(self).pos + 4 > old(self).buf@.len() {
                Err(short(old(self).buf@, old(self).pos as int, 4))
            } else {
                Ok(num(u32_at(old(self).buf@, old(self).pos as int)))
            },
            r is Ok ==> final(self).pos == old(self).pos + 4,
    {
        match self.take_u32() {
            Ok(b) => Ok(num(b)),
            Err(e) => Err(e),
        }
    }

    fn take_point(&mut self) -> (r: Result<Point, Error>)
        requires
            old(self).ok(),
        ensures
            final(self).ok(),
            final(self).buf == old(self).buf,
            r == read_point(old(self).buf@, old(self).pos as int),
            r is Ok ==> final(self).pos == old(self).pos + 28,
    {
        let x = self.take_f32()?;
        let y = self.take_f32()?;
        let pressure = self.take_f32()?;
        let tilt_x = self.take_f32()?;
        let tilt_y = self.take_f32()?;
        let t_us = self.take_u64()?;
        Ok(Point { x, y, pressure, tilt_x, tilt_y, t_us })
    }

    fn take_stroke(&mut self) -> (r: Result<Stroke, Error>)
        requires
            old(self).ok(),
        ensures
            final(self).ok(),
            final(self).buf == old(self).buf,
            match r {
                Ok(s) => read_stroke(old(self).buf@, old(self).pos as int) == Ok::<
                    Seq<Point>,
                    Error,
                >(s@) && final(self).pos == old(self).pos + 4 + 28 * s@.len(),
                Err(e) => read_stroke(old(self).buf@, old(self).pos as int) == Err::<
                    Seq<Point>,
                    Error,
                >(e),
            },
    {
        let ghost bytes = self.buf@;
        let ghost start = self.pos as int + 4;
        let count: u32 = self.take_u32()?;
        let mut points: Vec<Point> = Vec::new();
        let mut i: u32 = 0;
        while i < count
            invariant
                i <= count,
                self.ok(),
                self.buf == old(self).buf,
                bytes == self.buf@,
                bytes == old(self).buf@,
                start == old(self).pos + 4,
                start <= bytes.len(),
                count == u32_at(bytes, start - 4),
                self.pos == start + 28 * i,
                points.len() == i,
                read_points(bytes, start, i as nat) == Ok::<Seq<Point>, Error>(points@),
            decreases count - i,
        {
            let next = self.take_point();
            match next {
                Ok(p) => {
                    points.push(p);
                },
                Err(e) => {
                    proof {
                        lemma_points_error(bytes, start, (i + 1) as nat, count as nat, e);
                    }
                    return Err(e);
                },
            }
            i = i + 1;
        }
        Ok(Stroke { points })
    }
}

/// A point that cannot be read fails the whole list.
proof fn lemma_points_error(bytes: Seq<u8>, pos: int, k: nat, n: nat, e: Error)
    requires
        k <= n,
        read_points(bytes, pos, k) == Err::<Seq<Point>, Error>(e),
    ensures
        read_points(bytes, pos, n) == Err::<Seq<Point>, Error>(e),
    decreases n - k,
{
    if k < n {
        lemma_points_error(bytes, pos, k + 1, n, e);
    }
}

/// A stroke that cannot be read fails the whole list.
proof fn lemma_strokes_error(bytes: Seq<u8>, pos: int, k: nat, n: nat, e: Error)
    requires
        k <= n,
        read_strokes(bytes, pos, k) == Err::<(Seq<Seq<Point>>, int), Error>(e),
    ensures
        read_strokes(bytes, pos, n) == Err::<(Seq<Seq<Point>>, int), Error>(e),
    decreases n - k,
{
    if k < n {
        lemma_strokes_error(bytes, pos, k + 1, n, e);
    }
}

fn read_all(bytes: &[u8]) -> (r: Result<Ink, Error>)
    ensures
        decoded(r) == read_ink(bytes@),
{
    let mut c = Cursor::new(bytes);
    let head = c.take(4)?;
    let expected = magic_bytes();
    assert(bytes@.subrange(0, 4) =~= bytes@.take(4));
    if head[0] != expected[0] || head[1] != expected[1] || head[2] != expected[2] || head[3]
        != expected[3] {
        let found: [u8; 4] = [head[0], head[1], head[2], head[3]];
        let e = Error::BadMagic { found, expected };
        proof {
            assert(found@ =~= bytes@.take(4));
            lemma_bad_magic(bytes@, e);
        }
        return Err(e);
    }
    assert(head@ =~= magic());
    let version: u16 = c.take_u16()?;
    if version != VERSION {
        return Err(Error::UnsupportedVersion(version, VERSION));
    }
    let _flags: u16 = c.take_u16()?;
    let source_width = c.take_f32()?;
    let source_height = c.take_f32()?;
    let count: u32 = c.take_u32()?;
    let mut strokes: Vec<Stroke> = Vec::new();
    let mut i: u32 = 0;
    assert(crate::stroke::trajectories(strokes@) =~= Seq::<Seq<Point>>::empty());
    while i < count
        invariant
            i <= count,
            c.ok(),
            c.buf@ == bytes@,
            read_strokes(bytes@, 20, i as nat) == Ok::<(Seq<Seq<Point>>, int), Error>(
                (crate::stroke::trajectories(strokes@), c.pos as int),
            ),
            bytes@.len() >= 20,
            bytes@.take(4) == magic(),
            u16_at(bytes@, 4) == VERSION,
            count == u32_at(bytes@, 16),
        decreases count - i,
    {
        let next = c.take_stroke();
        match next {
            Ok(s) => {
                proof {
                    assert(crate::stroke::trajectories(strokes@.push(s))
                        =~= crate::stroke::trajectories(strokes@).push(s@));
                }
                strokes.push(s);
            },
            Err(e) => {
                proof {
                    lemma_strokes_error(bytes@, 20, (i + 1) as nat, count as nat, e);
                }
                return Err(e);
            },
        }
        i = i + 1;
    }
    Ok(Ink { source_width, source_height, strokes })
}

proof fn lemma_bad_magic(bytes: Seq<u8>, e: Error)
    requires
        reports_magic(e, bytes),
    ensures
        bad_magic(bytes) == e,
{
    let other = bad_magic(bytes);
    match (e, other) {
        (
            Error::BadMagic { found, expected },
            Error::BadMagic { found: f2, expected: e2 },
        ) => {
            assert(found =~= f2);
            assert(expected =~= e2);
        },
        _ => {},
    }
}

impl Ink {
    /// Serialize to the `.ink` byte layout.
    pub fn encode(&self) -> (r: Vec<u8>)
        ensures
            r@ == ink_bytes(self@),
    {
        let mut out: Vec<u8> = Vec::new();
        out.push(0x49);
        out.push(0x4e);
        out.push(0x4b);
        out.push(0x31);
        assert(out@ =~= magic());
        put_u16(&mut out, VERSION);
        put_u16(&mut out, 0);
        put_u32(&mut out, self.source_width.bits);
        put_u32(&mut out, self.source_height.bits);
        put_count(&mut out, self.strokes.len());
        let ghost all = self@.strokes;
        let ghost start = header_bytes(self@);
        let mut i: usize = 0;
        assert(out@ =~= start + strokes_bytes(all.take(0)));
        while i < self.strokes.len()
            invariant
                i <= self.strokes.len(),
                all == crate::stroke::trajectories(self.strokes@),
                out@ == start + strokes_bytes(all.take(i as int)),
            decreases self.strokes.len() - i,
        {
            put_stroke(&mut out, &self.strokes[i]);
            proof {
                assert(all.take(i + 1).drop_last() =~= all.take(i as int));
                assert(out@ =~= start + strokes_bytes(all.take(i + 1)));
            }
            i = i + 1;
        }
        assert(all.take(i as int) =~= all);
        out
    }

    /// Parse the `.ink` byte layout. Rejects bad magic, unknown versions, and truncation; never
    /// panics on malformed or hostile input.
    pub fn decode(bytes: &[u8]) -> (r: Result<Ink, Error>)
        ensures
            decoded(r) == read_ink(bytes@),
    {
        read_all(bytes)
    }
}

// ---------------------------------------------------------------------------------------------
// Reading back what was written
// ---------------------------------------------------------------------------------------------
proof fn lemma_point_len(p: Point)
    ensures
        point_bytes(p).len() == 28,
{
    lemma_auto_spec_u32_to_from_le_bytes();
    lemma_auto_spec_u64_to_from_le_bytes();
}

proof fn lemma_points_len(points: Seq<Point>)
    ensures
        points_bytes(points).len() == 28 * points.len(),
    decreases points.len(),
{
    if points.len() > 0 {
        lemma_points_len(points.drop_last());
        lemma_point_len(points.last());
    }
}

proof fn lemma_stroke_len(points: Seq<Point>)
    ensures
        stroke_bytes(points).len() == 4 + 28 * points.len(),
{
    lemma_auto_spec_u32_to_from_le_bytes();
    lemma_points_len(points);
}

/// A `u32` is read back from where it was written.
proof fn lemma_u32_back(bytes: Seq<u8>, pos: int, v: u32)
    requires
        0 <= pos,
        pos + 4 <= bytes.len(),
        bytes.subrange(pos, pos + 4) == spec_u32_to_le_bytes(v),
    ensures
        u32_at(bytes, pos) == v,
{
    lemma_auto_spec_u32_to_from_le_bytes();
    assert(spec_u32_to_le_bytes(v).len() == 4);
}

/// A point is read back from where it was written.
proof fn lemma_point_back(bytes: Seq<u8>, pos: int, p: Point)
    requires
        0 <= pos,
        pos + 28 <= bytes.len(),
        bytes.subrange(pos, pos + 28) == point_bytes(p),
    ensures
        read_point(bytes, pos) == Ok::<Point, Error>(p),
{
    lemma_auto_spec_u32_to_from_le_bytes();
    lemma_auto_spec_u64_to_from_le_bytes();
    let all = bytes.subrange(pos, pos + 28);
    let a = spec_u32_to_le_bytes(p.x.bits);
    let b = spec_u32_to_le_bytes(p.y.bits);
    let c = spec_u32_to_le_bytes(p.pressure.bits);
    let d = spec_u32_to_le_bytes(p.tilt_x.bits);
    let e = spec_u32_to_le_bytes(p.tilt_y.bits);
    let f = spec_u64_to_le_bytes(p.t_us);
    assert(all == a + b + c + d + e + f);
    assert(bytes.subrange(pos, pos + 4) =~= all.subrange(0, 4));
    assert(all.subrange(0, 4) =~= a);
    assert(bytes.subrange(pos + 4, pos + 8) =~= all.subrange(4, 8));
    assert(all.subrange(4, 8) =~= b);
    assert(bytes.subrange(pos + 8, pos + 12) =~= all.subrange(8, 12));
    assert(all.subrange(8, 12) =~= c);
    assert(bytes.subrange(pos + 12, pos + 16) =~= all.subrange(12, 16));
    assert(all.subrange(12, 16) =~= d);
    assert(bytes.subrange(pos + 16, pos + 20) =~= all.subrange(16, 20));
    assert(all.subrange(16, 20) =~= e);
    assert(bytes.subrange(pos + 20, pos + 28) =~= all.subrange(20, 28));
    assert(all.subrange(20, 28) =~= f);
    lemma_u32_back(bytes, pos, p.x.bits);
    lemma_u32_back(bytes, pos + 4, p.y.bits);
    lemma_u32_back(bytes, pos + 8, p.pressure.bits);
    lemma_u32_back(bytes, pos + 12, p.tilt_x.bits);
    lemma_u32_back(bytes, pos + 16, p.tilt_y.bits);
}

/// Points are read back from between whatever surrounds them.
proof fn lemma_points_back(pre: Seq<u8>, points: Seq<Point>, post: Seq<u8>)
    ensures
        read_points(pre + points_bytes(points) + post, pre.len() as int, points.len()) == Ok::<
            Seq<Point>,
            Error,
        >(points),
    decreases points.len(),
{
    let bytes = pre + points_bytes(points) + post;
    if points.len() > 0 {
        let rest = points.drop_last();
        let last = points.last();
        lemma_points_back(pre, rest, point_bytes(last) + post);
        assert(bytes =~= pre + points_bytes(rest) + (point_bytes(last) + post));
        lemma_points_len(rest);
        lemma_point_len(last);
        let at = pre.len() + 28 * (points.len() - 1);
        assert(bytes.subrange(at, at + 28) =~= point_bytes(last));
        lemma_point_back(bytes, at, last);
        assert(rest.push(last) =~= points);
    } else {
        assert(points =~= Seq::<Point>::empty());
    }
}

/// Strokes are read back from between whatever surrounds them.
proof fn lemma_strokes_back(pre: Seq<u8>, strokes: Seq<Seq<Point>>, post: Seq<u8>)
    requires
        forall|i: int| 0 <= i < strokes.len() ==> (#[trigger] strokes[i]).len() <= u32::MAX,
    ensures
        read_strokes(pre + strokes_bytes(strokes) + post, pre.len() as int, strokes.len()) == Ok::<
            (Seq<Seq<Point>>, int),
            Error,
        >((strokes, (pre.len() + strokes_bytes(strokes).len()) as int)),
    decreases strokes.len(),
{
    let bytes = pre + strokes_bytes(strokes) + post;
    if strokes.len() > 0 {
        let rest = strokes.drop_last();
        let last = strokes.last();
        assert forall|i: int| 0 <= i < rest.len() implies (#[trigger] rest[i]).len() <= u32::MAX by {
            assert(strokes[i].len() <= u32::MAX);
        }
        assert(strokes[strokes.len() - 1].len() <= u32::MAX);
        lemma_strokes_back(pre, rest, stroke_bytes(last) + post);
        assert(bytes =~= pre + strokes_bytes(rest) + (stroke_bytes(last) + post));
        let at = (pre.len() + strokes_bytes(rest).len()) as int;
        let count = spec_u32_to_le_bytes(last.len() as u32);
        let before = pre + strokes_bytes(rest) + count;
        lemma_auto_spec_u32_to_from_le_bytes();
        assert(bytes =~= before + points_bytes(last) + post);
        assert(bytes.subrange(at, at + 4) =~= count);
        lemma_u32_back(bytes, at, last.len() as u32);
        lemma_points_back(before, last, post);
        lemma_stroke_len(last);
        assert(before.len() == at + 4);
        assert(rest.push(last) =~= strokes);
    } else {
        assert(strokes =~= Seq::<Seq<Point>>::empty());
    }
}

/// A drawing that is encoded and decoded comes back as it was, whatever its numbers are. Its
/// counts have to fit in the 32 bits that the format has for them.
pub proof fn law_decode_gives_back_what_encode_wrote(ink: InkView)
    requires
        ink.strokes.len() <= u32::MAX,
        forall|i: int| 0 <= i < ink.strokes.len() ==> (#[trigger] ink.strokes[i]).len() <= u32::MAX,
    ensures
        read_ink(ink_bytes(ink)) == Ok::<InkView, Error>(ink),
{
    let bytes = ink_bytes(ink);
    let head = header_bytes(ink);
    lemma_auto_spec_u16_to_from_le_bytes();
    lemma_auto_spec_u32_to_from_le_bytes();
    assert(head.len() == 20);
    assert(bytes =~= head + strokes_bytes(ink.strokes) + Seq::<u8>::empty());
    lemma_strokes_back(head, ink.strokes, Seq::empty());
    assert(bytes.take(4) =~= magic());
    assert(bytes.subrange(4, 6) =~= spec_u16_to_le_bytes(VERSION));
    assert(bytes.subrange(8, 12) =~= spec_u32_to_le_bytes(ink.source_width.bits));
    assert(bytes.subrange(12, 16) =~= spec_u32_to_le_bytes(ink.source_height.bits));
    assert(bytes.subrange(16, 20) =~= spec_u32_to_le_bytes(ink.strokes.len() as u32));
    lemma_u32_back(bytes, 8, ink.source_width.bits);
    lemma_u32_back(bytes, 12, ink.source_height.bits);
    lemma_u32_back(bytes, 16, ink.strokes.len() as u32);
}

// ---------------------------------------------------------------------------------------------
// Reading what was cut off
// ---------------------------------------------------------------------------------------------
/// Does the error report a read that a buffer of `n` bytes is too short for?
pub open spec fn reports_cut(e: Error, n: int) -> bool {
    match e {
        Error::Truncated { offset, needed, available } => {
            &&& offset <= n
            &&& available == n - offset
            &&& needed > available
        },
        _ => false,
    }
}

proof fn lemma_point_cut(bytes: Seq<u8>, n: int, pos: int)
    requires
        0 <= pos <= n <= bytes.len(),
        n <= usize::MAX,
    ensures
        match read_point(bytes.take(n), pos) {
            Ok(p) => pos + 28 <= n && read_point(bytes, pos) == Ok::<Point, Error>(p),
            Err(e) => reports_cut(e, n),
        },
{
    let cut = bytes.take(n);
    if pos + 28 <= n {
        assert(cut.subrange(pos, pos + 4) =~= bytes.subrange(pos, pos + 4));
        assert(cut.subrange(pos + 4, pos + 8) =~= bytes.subrange(pos + 4, pos + 8));
        assert(cut.subrange(pos + 8, pos + 12) =~= bytes.subrange(pos + 8, pos + 12));
        assert(cut.subrange(pos + 12, pos + 16) =~= bytes.subrange(pos + 12, pos + 16));
        assert(cut.subrange(pos + 16, pos + 20) =~= bytes.subrange(pos + 16, pos + 20));
        assert(cut.subrange(pos + 20, pos + 28) =~= bytes.subrange(pos + 20, pos + 28));
    }
}

proof fn lemma_points_cut(bytes: Seq<u8>, n: int, pos: int, count: nat)
    requires
        0 <= pos <= n <= bytes.len(),
        n <= usize::MAX,
    ensures
        match read_points(bytes.take(n), pos, count) {
            Ok(points) => pos + 28 * count <= n && points.len() == count && read_points(
                bytes,
                pos,
                count,
            ) == Ok::<Seq<Point>, Error>(points),
            Err(e) => reports_cut(e, n),
        },
    decreases count,
{
    if count > 0 {
        lemma_points_cut(bytes, n, pos, (count - 1) as nat);
        if read_points(bytes.take(n), pos, (count - 1) as nat) is Ok {
            lemma_point_cut(bytes, n, pos + 28 * (count - 1));
        }
    }
}

proof fn lemma_strokes_cut(bytes: Seq<u8>, n: int, pos: int, count: nat)
    requires
        0 <= pos <= n <= bytes.len(),
        n <= usize::MAX,
    ensures
        match read_strokes(bytes.take(n), pos, count) {
            Ok((strokes, at)) => pos <= at <= n && read_strokes(bytes, pos, count) == Ok::<
                (Seq<Seq<Point>>, int),
                Error,
            >((strokes, at)),
            Err(e) => reports_cut(e, n),
        },
    decreases count,
{
    let cut = bytes.take(n);
    if count > 0 {
        lemma_strokes_cut(bytes, n, pos, (count - 1) as nat);
        if read_strokes(cut, pos, (count - 1) as nat) is Ok {
            let at = read_strokes(cut, pos, (count - 1) as nat)->Ok_0.1;
            if at + 4 <= n {
                assert(cut.subrange(at, at + 4) =~= bytes.subrange(at, at + 4));
                lemma_points_cut(bytes, n, at + 4, u32_at(bytes, at) as nat);
            }
        }
    }
}

/// Every proper prefix of an encoded drawing is refused as cut off: the error says where the read
/// that failed starts, what is left there, and that it needed more. The counts have to fit in the
/// 32 bits that the format has for them, and the encoding in memory.
pub proof fn law_every_prefix_is_refused(ink: InkView, n: int)
    requires
        ink.strokes.len() <= u32::MAX,
        forall|i: int| 0 <= i < ink.strokes.len() ==> (#[trigger] ink.strokes[i]).len() <= u32::MAX,
        0 <= n < ink_bytes(ink).len() <= usize::MAX,
    ensures
        read_ink(ink_bytes(ink).take(n)) is Err,
        reports_cut(read_ink(ink_bytes(ink).take(n))->Err_0, n),
{
    let bytes = ink_bytes(ink);
    let cut = bytes.take(n);
    let head = header_bytes(ink);
    lemma_auto_spec_u16_to_from_le_bytes();
    lemma_auto_spec_u32_to_from_le_bytes();
    assert(head.len() == 20);
    assert(bytes =~= head + strokes_bytes(ink.strokes) + Seq::<u8>::empty());
    if n >= 4 {
        assert(cut.take(4) =~= magic());
    }
    if n >= 6 {
        assert(cut.subrange(4, 6) =~= spec_u16_to_le_bytes(VERSION));
    }
    if n >= 20 {
        assert(cut.subrange(16, 20) =~= spec_u32_to_le_bytes(ink.strokes.len() as u32));
        lemma_u32_back(cut, 16, ink.strokes.len() as u32);
        lemma_strokes_back(head, ink.strokes, Seq::empty());
        lemma_strokes_cut(bytes, n, 20, ink.strokes.len());
    }
}

/// Whatever follows the last stroke is ignored: bytes that decode to a drawing decode to the same
/// one with any others behind them.
pub proof fn law_bytes_behind_the_last_stroke_are_ignored(bytes: Seq<u8>, more: Seq<u8>)
    requires
        bytes.len() <= usize::MAX,
        read_ink(bytes) is Ok,
    ensures
        read_ink(bytes + more) == read_ink(bytes),
{
    let all = bytes + more;
    let n = bytes.len() as int;
    assert(all.take(n) =~= bytes);
    assert(all.take(4) =~= bytes.take(4));
    assert(all.subrange(4, 6) =~= bytes.subrange(4, 6));
    assert(all.subrange(8, 12) =~= bytes.subrange(8, 12));
    assert(all.subrange(12, 16) =~= bytes.subrange(12, 16));
    assert(all.subrange(16, 20) =~= bytes.subrange(16, 20));
    lemma_strokes_cut(all, n, 20, u32_at(bytes, 16) as nat);
}

// ---------------------------------------------------------------------------------------------
// The layout
// ---------------------------------------------------------------------------------------------
/// A drawing begins with `INK1`, the version in two bytes, two bytes of zeros, the width and the height that
/// it was drawn in, and the number of its strokes, in four bytes each; the least significant byte of a number
/// comes first. The strokes follow.
pub proof fn law_the_header_has_twenty_bytes(ink: InkView)
    requires
        ink.strokes.len() <= u32::MAX,
    ensures
        ({
            let b = ink_bytes(ink);
            &&& b.len() == 20 + strokes_bytes(ink.strokes).len()
            &&& b.subrange(0, 4) == seq![0x49u8, 0x4e, 0x4b, 0x31]
            &&& b.subrange(4, 6) == spec_u16_to_le_bytes(VERSION)
            &&& b.subrange(6, 8) == spec_u16_to_le_bytes(0)
            &&& b.subrange(8, 12) == spec_u32_to_le_bytes(ink.source_width.bits)
            &&& b.subrange(12, 16) == spec_u32_to_le_bytes(ink.source_height.bits)
            &&& b.subrange(16, 20) == spec_u32_to_le_bytes(ink.strokes.len() as u32)
        }),
{
    lemma_auto_spec_u16_to_from_le_bytes();
    lemma_auto_spec_u32_to_from_le_bytes();
    let b = ink_bytes(ink);
    assert(header_bytes(ink).len() == 20);
    assert(b.subrange(0, 4) =~= seq![0x49u8, 0x4e, 0x4b, 0x31]);
    assert(b.subrange(4, 6) =~= spec_u16_to_le_bytes(VERSION));
    assert(b.subrange(6, 8) =~= spec_u16_to_le_bytes(0));
    assert(b.subrange(8, 12) =~= spec_u32_to_le_bytes(ink.source_width.bits));
    assert(b.subrange(12, 16) =~= spec_u32_to_le_bytes(ink.source_height.bits));
    assert(b.subrange(16, 20) =~= spec_u32_to_le_bytes(ink.strokes.len() as u32));
}

/// A stroke is the number of its points in four bytes, then 28 bytes for each: where it is from the left
/// and from the top, the pressure and the two tilts, in four bytes each, and the time in eight.
pub proof fn law_a_point_has_twenty_eight_bytes(points: Seq<Point>, i: int)
    requires
        points.len() <= u32::MAX,
        0 <= i < points.len(),
    ensures
        ({
            let b = stroke_bytes(points);
            let at = 4 + 28 * i;
            let p = points[i];
            &&& b.len() == 4 + 28 * points.len()
            &&& b.subrange(0, 4) == spec_u32_to_le_bytes(points.len() as u32)
            &&& b.subrange(at, at + 4) == spec_u32_to_le_bytes(p.x.bits)
            &&& b.subrange(at + 4, at + 8) == spec_u32_to_le_bytes(p.y.bits)
            &&& b.subrange(at + 8, at + 12) == spec_u32_to_le_bytes(p.pressure.bits)
            &&& b.subrange(at + 12, at + 16) == spec_u32_to_le_bytes(p.tilt_x.bits)
            &&& b.subrange(at + 16, at + 20) == spec_u32_to_le_bytes(p.tilt_y.bits)
            &&& b.subrange(at + 20, at + 28) == spec_u64_to_le_bytes(p.t_us)
        }),
{
    lemma_auto_spec_u32_to_from_le_bytes();
    lemma_auto_spec_u64_to_from_le_bytes();
    let b = stroke_bytes(points);
    let at = 4 + 28 * i;
    let p = points[i];
    let own = point_bytes(p);
    lemma_stroke_len(points);
    lemma_points_at(points, i);
    assert(b.subrange(0, 4) =~= spec_u32_to_le_bytes(points.len() as u32));
    assert(b.subrange(at, at + 28) =~= points_bytes(points).subrange(28 * i, 28 * i + 28));
    assert(b.subrange(at, at + 4) =~= own.subrange(0, 4));
    assert(own.subrange(0, 4) =~= spec_u32_to_le_bytes(p.x.bits));
    assert(b.subrange(at + 4, at + 8) =~= own.subrange(4, 8));
    assert(own.subrange(4, 8) =~= spec_u32_to_le_bytes(p.y.bits));
    assert(b.subrange(at + 8, at + 12) =~= own.subrange(8, 12));
    assert(own.subrange(8, 12) =~= spec_u32_to_le_bytes(p.pressure.bits));
    assert(b.subrange(at + 12, at + 16) =~= own.subrange(12, 16));
    assert(own.subrange(12, 16) =~= spec_u32_to_le_bytes(p.tilt_x.bits));
    assert(b.subrange(at + 16, at + 20) =~= own.subrange(16, 20));
    assert(own.subrange(16, 20) =~= spec_u32_to_le_bytes(p.tilt_y.bits));
    assert(b.subrange(at + 20, at + 28) =~= own.subrange(20, 28));
    assert(own.subrange(20, 28) =~= spec_u64_to_le_bytes(p.t_us));
}

proof fn lemma_points_at(points: Seq<Point>, i: int)
    requires
        0 <= i < points.len(),
    ensures
        points_bytes(points).len() == 28 * points.len(),
        points_bytes(points).subrange(28 * i, 28 * i + 28) == point_bytes(points[i]),
    decreases points.len(),
{
    let before = points.drop_last();
    let last = points.len() - 1;
    lemma_points_len(points);
    lemma_points_len(before);
    lemma_point_len(points[last]);
    if i < last {
        lemma_points_at(before, i);
        assert(points_bytes(points).subrange(28 * i, 28 * i + 28) =~= points_bytes(
            before,
        ).subrange(28 * i, 28 * i + 28));
    } else {
        assert(points_bytes(points).subrange(28 * i, 28 * i + 28) =~= point_bytes(points[i]));
    }
}

} // verus!
