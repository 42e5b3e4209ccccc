//! The pixel store: a bitmap file held as bytes, with its header fields
//! decoded and indexed access to the pixels of its pixel array.
use vstd::arithmetic::div_mod::lemma_div_is_ordered;
use vstd::arithmetic::mul::lemma_mul_inequality;
use vstd::prelude::*;

verus! {

/// Error returned by the metrics when two images differ in width, height
/// or pixel depth.
#[derive(Debug, Clone, Copy, PartialEq, Eq, Structural)]
pub struct NotComparableError;

impl NotComparableError {
    /// The message that describes this error.
    pub fn message(&self) -> (r: String)
        ensures
            r@ == "Provided BMPs are not comparable."@,
    {
        String::from_str("Provided BMPs are not comparable.")
    }
}

/// Why a byte buffer could not be read as a bitmap.
#[derive(Debug, Clone, Copy, PartialEq, Eq, Structural)]
pub enum ParseError {
    /// The buffer ends before the last header field that is read.
    TooShort,
    /// The first two bytes are not `BM`.
    BadMagic,
    /// Fewer than eight bits per pixel.
    DepthTooSmall,
}

/// Shortest buffer that holds every header field read by [`BMP::new`].
pub const HEADER_LEN: usize = 30;

/// Little-endian value of the four bytes of `s` from `at`.
pub open spec fn le_u32(s: Seq<u8>, at: int) -> u32 {
    (s[at] as int + 256 * s[at + 1] as int + 65536 * s[at + 2] as int + 16777216 * s[at
        + 3] as int) as u32
}

/// Little-endian value of the two bytes of `s` from `at`.
pub open spec fn le_u16(s: Seq<u8>, at: int) -> u16 {
    (s[at] as int + 256 * s[at + 1] as int) as u16
}

pub open spec fn abs(x: int) -> nat {
    if x < 0 {
        (-x) as nat
    } else {
        x as nat
    }
}

/// The mathematical content of a [`BMP`].
pub struct BmpView {
    pub width: i32,
    pub height: i32,
    pub pixel_size: u16,
    pub pixel_array_offset: u32,
    pub contents: Seq<u8>,
}

impl BmpView {
    /// Holds of every store that [`BMP::new`] can produce.
    pub open spec fn wf(self) -> bool {
        self.pixel_size >= 8
    }

    pub open spec fn bytes_per_pixel(self) -> nat {
        (self.pixel_size / 8) as nat
    }

    /// Pixel columns; a width that is not positive holds no column.
    pub open spec fn columns(self) -> nat {
        if self.width > 0 {
            self.width as nat
        } else {
            0
        }
    }

    pub open spec fn rows(self) -> nat {
        abs(self.height as int)
    }

    pub open spec fn num_pixels(self) -> nat {
        self.columns() * self.rows()
    }

    /// Filler bytes that bring a row to a multiple of four bytes.
    pub open spec fn padding_per_row(self) -> nat {
        let r = (self.columns() * self.bytes_per_pixel()) % 4;
        if r == 0 {
            0
        } else {
            (4 - r) as nat
        }
    }

    pub open spec fn row_size(self) -> nat {
        (self.bytes_per_pixel() * self.columns() + 3) / 4 * 4
    }

    pub open spec fn pixel_array_size(self) -> nat {
        self.row_size() * self.rows()
    }

    /// Offset of the first byte of pixel `i`: one byte of adjustment is
    /// added per completed row whenever rows are padded at all.
    pub open spec fn pixel_start(self, i: nat) -> nat {
        self.pixel_array_offset as nat + i * self.bytes_per_pixel() + if self.padding_per_row()
            > 0 {
            i / self.columns()
        } else {
            0
        }
    }

    /// Pixel `i` exists and lies wholly inside the buffer.
    pub open spec fn pixel_in_bounds(self, i: nat) -> bool {
        i < self.num_pixels() && self.pixel_start(i) + self.bytes_per_pixel()
            <= self.contents.len()
    }

    /// Every pixel lies inside the buffer.
    pub open spec fn pixels_in_bounds(self) -> bool {
        self.num_pixels() == 0 || self.pixel_in_bounds((self.num_pixels() - 1) as nat)
    }

    pub open spec fn pixel_bytes(self, i: nat) -> Seq<u8> {
        self.contents.subrange(
            self.pixel_start(i) as int,
            (self.pixel_start(i) + self.bytes_per_pixel()) as int,
        )
    }

    /// The first byte of every pixel, in pixel order.
    pub open spec fn lsb_plane(self) -> Seq<u8> {
        Seq::new(self.num_pixels(), |i: int| self.contents[self.pixel_start(i as nat) as int])
    }

    /// Byte `j` of the buffer is the first byte of some pixel.
    pub open spec fn is_pixel_start(self, j: int) -> bool {
        exists|i: nat| i < self.num_pixels() && #[trigger] self.pixel_start(i) == j
    }

    /// Same header fields and buffer length, and the same bytes wherever
    /// no pixel starts.
    pub open spec fn same_except_plane(self, other: BmpView) -> bool {
        &&& self.width == other.width
        &&& self.height == other.height
        &&& self.pixel_size == other.pixel_size
        &&& self.pixel_array_offset == other.pixel_array_offset
        &&& self.contents.len() == other.contents.len()
        &&& forall|j: int|
            0 <= j < self.contents.len() && !self.is_pixel_start(j) ==> #[trigger] self.contents[j]
                == other.contents[j]
    }

    /// The store that `bytes` decodes to, whenever it is long enough.
    pub open spec fn parse(bytes: Seq<u8>) -> BmpView {
        BmpView {
            width: le_u32(bytes, 18) as i32,
            height: le_u32(bytes, 22) as i32,
            pixel_size: le_u16(bytes, 28),
            pixel_array_offset: le_u32(bytes, 10),
            contents: bytes,
        }
    }
}

/// Pixels start no earlier than those before them, and do not overlap.
pub proof fn lemma_pixel_start_ordered(v: BmpView, i: nat, j: nat)
    requires
        i < j,
        v.wf(),
    ensures
        v.pixel_start(i) + v.bytes_per_pixel() <= v.pixel_start(j),
{
    lemma_mul_inequality(i as int + 1, j as int, v.bytes_per_pixel() as int);
    assert((i + 1) * v.bytes_per_pixel() == i * v.bytes_per_pixel() + v.bytes_per_pixel())
        by (nonlinear_arith);
    if v.padding_per_row() > 0 {
        if v.columns() > 0 {
            lemma_div_is_ordered(i as int, j as int, v.columns() as int);
        } else {
            assert(v.columns() * v.bytes_per_pixel() == 0) by (nonlinear_arith)
                requires
                    v.columns() == 0,
            ;
        }
    }
}

/// A pixel lies no earlier in the buffer than its index.
pub proof fn lemma_pixel_start_at_least_index(v: BmpView, i: nat)
    requires
        v.wf(),
    ensures
        v.pixel_start(i) >= i,
{
    assert(v.bytes_per_pixel() >= 1);
    assert(i * v.bytes_per_pixel() >= i) by (nonlinear_arith)
        requires
            v.bytes_per_pixel() >= 1,
    ;
    if v.padding_per_row() > 0 {
        if v.columns() == 0 {
            assert(v.columns() * v.bytes_per_pixel() == 0) by (nonlinear_arith)
                requires
                    v.columns() == 0,
            ;
        }
        assert(i / v.columns() >= 0) by (nonlinear_arith)
            requires
                v.columns() > 0,
        ;
    }
}

/// When every pixel lies in the buffer, there are no more pixels than bytes.
pub proof fn lemma_num_pixels_fit(v: BmpView)
    requires
        v.wf(),
        v.pixels_in_bounds(),
    ensures
        v.num_pixels() <= v.contents.len(),
{
    if v.num_pixels() > 0 {
        lemma_pixel_start_at_least_index(v, (v.num_pixels() - 1) as nat);
    }
}

/// Every store agrees with itself off the plane.
pub proof fn lemma_same_except_plane_refl(a: BmpView)
    ensures
        a.same_except_plane(a),
{
}

/// Agreeing off the plane is transitive.
pub proof fn lemma_same_except_plane_trans(a: BmpView, b: BmpView, c: BmpView)
    requires
        b.same_except_plane(a),
        c.same_except_plane(b),
    ensures
        c.same_except_plane(a),
{
    assert forall|j: int| 0 <= j < c.contents.len() && !c.is_pixel_start(j) implies #[trigger] c.contents[j] == a.contents[j] by {
        if b.is_pixel_start(j) {
            let i = choose|i: nat| i < b.num_pixels() && #[trigger] b.pixel_start(i) == j;
            assert(c.pixel_start(i) == b.pixel_start(i));
        }
    }
}

/// When every pixel lies in the buffer, each one does.
pub proof fn lemma_pixel_in_bounds(v: BmpView, i: nat)
    requires
        v.wf(),
        v.pixels_in_bounds(),
        i < v.num_pixels(),
    ensures
        v.pixel_in_bounds(i),
{
    if i < v.num_pixels() - 1 {
        lemma_pixel_start_ordered(v, i, (v.num_pixels() - 1) as nat);
    }
}

/// An uncompressed bitmap file held in memory, header and pixels together.
#[derive(Clone)]
pub struct BMP {
    width: i32,
    height: i32,
    pixel_size: u16,
    pixel_array_offset: u32,
    contents: Vec<u8>,
}

impl View for BMP {
    type V = BmpView;

    closed spec fn view(&self) -> BmpView {
        BmpView {
            width: self.width,
            height: self.height,
            pixel_size: self.pixel_size,
            pixel_array_offset: self.pixel_array_offset,
            contents: self.contents@,
        }
    }
}

fn read_le_u32(b: &Vec<u8>, at: usize) -> (r: u32)
    requires
        at + 4 <= b.len(),
    ensures
        r == le_u32(b@, at as int),
{
    let b0 = b[at] as u64;
    let b1 = b[at + 1] as u64;
    let b2 = b[at + 2] as u64;
    let b3 = b[at + 3] as u64;
    (b0 + 256 * b1 + 65536 * b2 + 16777216 * b3) as u32
}

impl BMP {
    /// Reads the header fields of a bitmap file given as bytes. The buffer
    /// is kept whole as the store's contents.
    pub fn new(contents: Vec<u8>) -> (r: Result<Self, ParseError>)
        ensures
            contents@.len() < HEADER_LEN ==> r == Err::<Self, ParseError>(ParseError::TooShort),
            contents@.len() >= HEADER_LEN && (contents@[0] != 0x42u8 || contents@[1] != 0x4du8)
                ==> r == Err::<Self, ParseError>(ParseError::BadMagic),
            contents@.len() >= HEADER_LEN && contents@[0] == 0x42u8 && contents@[1] == 0x4du8
                && le_u16(contents@, 28) < 8 ==> r == Err::<Self, ParseError>(
                ParseError::DepthTooSmall,
            ),
            contents@.len() >= HEADER_LEN && contents@[0] == 0x42u8 && contents@[1] == 0x4du8
                && le_u16(contents@, 28) >= 8 ==> r is Ok && r->Ok_0@ == BmpView::parse(
                contents@,
            ),
            r is Ok ==> r->Ok_0@.wf(),
    {
        if contents.len() < HEADER_LEN {
            return Err(ParseError::TooShort);
        }
        if contents[0] != 0x42u8 || contents[1] != 0x4du8 {
            return Err(ParseError::BadMagic);
        }
        let pixel_array_offset = read_le_u32(&contents, 10);
        let width = read_le_u32(&contents, 18) as i32;
        let height = read_le_u32(&contents, 22) as i32;
        let pixel_size: u16 = (contents[28] as u32 + 256 * contents[29] as u32) as u16;
        if pixel_size < 8 {
            return Err(ParseError::DepthTooSmall);
        }
        Ok(BMP { width, height, pixel_size, pixel_array_offset, contents })
    }

    pub fn width(&self) -> (r: i32)
        ensures
            r == self@.width,
    {
        self.width
    }

    pub fn height(&self) -> (r: i32)
        ensures
            r == self@.height,
    {
        self.height
    }

    /// Bits per pixel.
    pub fn pixel_size(&self) -> (r: u16)
        ensures
            r == self@.pixel_size,
    {
        self.pixel_size
    }

    pub fn bytes_per_pixel(&self) -> (r: u16)
        ensures
            r == self@.bytes_per_pixel(),
    {
        self.pixel_size / 8
    }

    fn columns(&self) -> (r: u32)
        ensures
            r == self@.columns(),
    {
        if self.width > 0 {
            self.width as u32
        } else {
            0
        }
    }

    fn rows(&self) -> (r: u32)
        ensures
            r == self@.rows(),
    {
        if self.height < 0 {
            (-(self.height as i64)) as u32
        } else {
            self.height as u32
        }
    }

    /// Number of pixels: columns times rows.
    pub fn num_pixels(&self) -> (r: u64)
        ensures
            r == self@.num_pixels(),
    {
        let c = self.columns();
        let h = self.rows();
        assert(c as int * h as int <= u32::MAX as int * u32::MAX as int) by (nonlinear_arith)
            requires
                c <= u32::MAX,
                h <= u32::MAX,
        ;
        c as u64 * h as u64
    }

    pub fn padding_per_row(&self) -> (r: u8)
        ensures
            r == self@.padding_per_row(),
            r <= 3,
    {
        let c = self.columns() as u64;
        let b = self.bytes_per_pixel() as u64;
        assert(c as int * b as int <= u32::MAX as int * u16::MAX as int) by (nonlinear_arith)
            requires
                c <= u32::MAX,
                b <= u16::MAX,
        ;
        let aux = (c * b % 4) as u8;
        if aux == 0 {
            0
        } else {
            4 - aux
        }
    }

    /// Bytes in one row of pixels, padding included.
    pub fn row_size(&self) -> (r: u64)
        ensures
            r == self@.row_size(),
    {
        let c = self.columns() as u64;
        let b = self.bytes_per_pixel() as u64;
        assert(c as int * b as int <= u32::MAX as int * u16::MAX as int) by (nonlinear_arith)
            requires
                c <= u32::MAX,
                b <= u16::MAX,
        ;
        assert(b * c == c * b) by (nonlinear_arith);
        (b * c + 3) / 4 * 4
    }

    /// Bytes in the pixel array: row size times rows.
    pub fn pixel_array_size(&self) -> (r: u128)
        ensures
            r == self@.pixel_array_size(),
    {
        let rs = self.row_size();
        let h = self.rows();
        assert(rs as int * h as int <= u64::MAX as int * u32::MAX as int) by (nonlinear_arith)
            requires
                rs <= u64::MAX,
                h <= u32::MAX,
        ;
        rs as u128 * h as u128
    }

    /// Whether every pixel lies inside the buffer.
    pub fn pixels_in_bounds(&self) -> (r: bool)
        requires
            self@.wf(),
        ensures
            r == self@.pixels_in_bounds(),
    {
        let n = self.num_pixels();
        if n == 0 {
            true
        } else {
            match self.pixel_range((n - 1) as u128) {
                Some(_) => true,
                None => false,
            }
        }
    }

    /// Start and end of pixel `index` in the buffer, where it lies inside it.
    fn pixel_range(&self, index: u128) -> (r: Option<(usize, usize)>)
        requires
            self@.wf(),
            index <= u64::MAX,
        ensures
            r is Some <==> self@.pixel_in_bounds(index as nat),
            r is Some ==> r->Some_0.0 == self@.pixel_start(index as nat) && r->Some_0.1
                == self@.pixel_start(index as nat) + self@.bytes_per_pixel(),
    {
        if index >= self.num_pixels() as u128 {
            return None;
        }
        let b = self.bytes_per_pixel() as u128;
        assert(index * b <= u64::MAX as int * u16::MAX as int) by (nonlinear_arith)
            requires
                index <= u64::MAX,
                b <= u16::MAX,
        ;
        let mut start: u128 = self.pixel_array_offset as u128 + index * b;
        if self.padding_per_row() > 0 {
            let c = self.columns() as u128;
            assert(c > 0) by {
                if c == 0 {
                    assert(self@.columns() * self@.bytes_per_pixel() == 0) by (nonlinear_arith)
                        requires
                            self@.columns() == 0,
                    ;
                }
            }
            start = start + index / c;
        }
        let end = start + b;
        if end > self.contents.len() as u128 {
            None
        } else {
            Some((start as usize, end as usize))
        }
    }

    /// The bytes of pixel `index`, or `None` where it does not exist or
    /// does not lie wholly inside the buffer.
    pub fn pixel(&self, index: usize) -> (r: Option<&[u8]>)
        requires
            self@.wf(),
        ensures
            r is Some <==> self@.pixel_in_bounds(index as nat),
            r is Some ==> r->Some_0@ == self@.pixel_bytes(index as nat),
    {
        match self.pixel_range(index as u128) {
            Some((start, end)) => Some(&self.contents.as_slice()[start..end]),
            None => None,
        }
    }

    /// The bytes of pixel `index`, to be changed in place, or `None` where it
    /// does not exist or does not lie wholly inside the buffer. What is
    /// written through the result lands in that pixel and nowhere else.
    pub fn pixel_as_mut(&mut self, index: usize) -> (r: Option<&mut [u8]>)
        requires
            old(self)@.wf(),
        ensures
            r is Some <==> old(self)@.pixel_in_bounds(index as nat),
            r is None ==> final(self)@ == old(self)@,
            r matches Some(px) ==> px@ == old(self)@.pixel_bytes(index as nat) && final(self)@ == (
            BmpView {
                contents: old(self)@.contents.subrange(
                    0,
                    old(self)@.pixel_start(index as nat) as int,
                ) + final(px)@ + old(self)@.contents.subrange(
                    (old(self)@.pixel_start(index as nat) + old(self)@.bytes_per_pixel()) as int,
                    old(self)@.contents.len() as int,
                ),
                ..old(self)@
            }),
    {
        match self.pixel_range(index as u128) {
            Some((start, end)) => {
                let (head, rest) = self.contents.as_mut_slice().split_at_mut(start);
                let (px, tail) = rest.split_at_mut(end - start);
                proof {
                    assert(has_resolved(head));
                    assert(has_resolved(tail));
                    assert(head@.len() == start);
                    assert(head@ + (final(px)@ + tail@) =~= old(self)@.contents.subrange(0, start as int)
                        + final(px)@ + old(self)@.contents.subrange(end as int, old(self)@.contents.len() as int));
                }
                Some(px)
            },
            None => None,
        }
    }

    /// The first byte of pixel `index`.
    pub fn pixel_byte(&self, index: usize) -> (r: u8)
        requires
            self@.wf(),
            self@.pixels_in_bounds(),
            index < self@.num_pixels(),
        ensures
            r == self@.lsb_plane()[index as int],
    {
        proof {
            lemma_pixel_in_bounds(self@, index as nat);
        }
        let (start, _end) = self.pixel_range(index as u128).unwrap();
        self.contents[start]
    }

    /// Overwrites the first byte of pixel `index`; nothing else changes.
    pub fn set_pixel_byte(&mut self, index: usize, value: u8)
        requires
            old(self)@.wf(),
            old(self)@.pixels_in_bounds(),
            index < old(self)@.num_pixels(),
        ensures
            final(self)@ == (BmpView {
                contents: old(self)@.contents.update(
                    old(self)@.pixel_start(index as nat) as int,
                    value,
                ),
                ..old(self)@
            }),
            final(self)@.lsb_plane() == old(self)@.lsb_plane().update(index as int, value),
            final(self)@.same_except_plane(old(self)@),
    {
        proof {
            lemma_pixel_in_bounds(self@, index as nat);
        }
        let (start, _end) = self.pixel_range(index as u128).unwrap();
        self.contents.set(start, value);
        proof {
            let o = old(self)@;
            let n = self@;
            let ps = o.pixel_start(index as nat) as int;
            assert(n.contents == o.contents.update(ps, value));
            assert forall|i: int| 0 <= i < n.num_pixels() implies n.lsb_plane()[i] == o.lsb_plane().update(index as int, value)[i] by {
                lemma_pixel_in_bounds(o, i as nat);
                if i < index {
                    lemma_pixel_start_ordered(o, i as nat, index as nat);
                } else if i > index {
                    lemma_pixel_start_ordered(o, index as nat, i as nat);
                }
            }
            assert(n.lsb_plane() =~= o.lsb_plane().update(index as int, value));
            assert(n.pixel_start(index as nat) == ps);
            assert(n.is_pixel_start(ps));
        }
    }

    /// The whole buffer, header included, as it would be written to a file.
    pub fn as_bytes(&self) -> (r: &[u8])
        ensures
            r@ == self@.contents,
    {
        self.contents.as_slice()
    }
}

} // verus!
