//! The integer parts of the distance measures between two images.
//!
//! Each pixel is read as one unsigned integer: its bytes, little-endian.
//! Multi-byte colour pixels are therefore compared as a single combined
//! value, not per channel. The floating-point steps (the division of the
//! mean squared error, the logarithm of the signal-to-noise ratio, and the
//! structural similarity) are left to the caller.
use crate::bitmap::{lemma_num_pixels_fit, lemma_pixel_in_bounds, BmpView, NotComparableError, BMP};
use vstd::prelude::*;

verus! {

/// Deepest pixels the measures accept: wider values would overflow the
/// squared differences.
pub const MAX_METRIC_PIXEL_SIZE: u16 = 32;

/// Little-endian value of a byte sequence.
pub open spec fn le_value(s: Seq<u8>) -> nat
    decreases s.len(),
{
    if s.len() == 0 {
        0
    } else {
        s[0] as nat + 256 * le_value(s.drop_first())
    }
}

pub open spec fn pow256(n: nat) -> nat
    decreases n,
{
    if n == 0 {
        1
    } else {
        256 * pow256((n - 1) as nat)
    }
}

/// Pixel `i` read as one unsigned integer.
pub open spec fn pixel_value(v: BmpView, i: nat) -> nat {
    le_value(v.pixel_bytes(i))
}

/// Same width, height and pixel depth.
pub open spec fn comparable(a: BmpView, b: BmpView) -> bool {
    a.width == b.width && a.height == b.height && a.pixel_size == b.pixel_size
}

/// Sum of the squared differences of the first `n` pixels.
pub open spec fn squared_error_upto(a: BmpView, b: BmpView, n: nat) -> nat
    decreases n,
{
    if n == 0 {
        0
    } else {
        let d = pixel_value(a, (n - 1) as nat) - pixel_value(b, (n - 1) as nat);
        squared_error_upto(a, b, (n - 1) as nat) + (d * d) as nat
    }
}

/// Sum of the squared differences over all pixels.
pub open spec fn squared_error(a: BmpView, b: BmpView) -> nat {
    squared_error_upto(a, b, a.num_pixels())
}

/// Largest value among the first `n` pixels; zero where there is none.
pub open spec fn max_value_upto(v: BmpView, n: nat) -> nat
    decreases n,
{
    if n == 0 {
        0
    } else {
        let m = max_value_upto(v, (n - 1) as nat);
        let x = pixel_value(v, (n - 1) as nat);
        if x > m {
            x
        } else {
            m
        }
    }
}

/// Precondition shared by the measures: a well-formed store whose pixels
/// all lie in the buffer and are at most 32 bits deep.
pub open spec fn measurable(v: BmpView) -> bool {
    v.wf() && v.pixels_in_bounds() && v.pixel_size <= MAX_METRIC_PIXEL_SIZE
}

proof fn lemma_le_value_bound(s: Seq<u8>)
    ensures
        le_value(s) < pow256(s.len()),
    decreases s.len(),
{
    if s.len() > 0 {
        lemma_le_value_bound(s.drop_first());
        assert(le_value(s) < pow256(s.len())) by (nonlinear_arith)
            requires
                le_value(s) == s[0] as nat + 256 * le_value(s.drop_first()),
                le_value(s.drop_first()) + 1 <= pow256(s.drop_first().len()),
                s[0] < 256,
                pow256(s.len()) == 256 * pow256(s.drop_first().len()),
        ;
    }
}

proof fn lemma_pow256_4()
    ensures
        pow256(0) == 1,
        pow256(1) == 256,
        pow256(2) == 65536,
        pow256(3) == 16777216,
        pow256(4) == 4294967296,
{
    reveal_with_fuel(pow256, 5);
}

/// A pixel of a measurable store is below 2^32.
proof fn lemma_pixel_value_bound(v: BmpView, i: nat)
    requires
        measurable(v),
        i < v.num_pixels(),
    ensures
        pixel_value(v, i) < 4294967296,
{
    lemma_pixel_in_bounds(v, i);
    lemma_le_value_bound(v.pixel_bytes(i));
    lemma_pow256_4();
    assert(v.pixel_bytes(i).len() <= 4);
}

impl BMP {
    /// Whether the two stores have the same width, height and pixel depth.
    pub fn comparable(bmp1: &Self, bmp2: &Self) -> (r: bool)
        ensures
            r == comparable(bmp1@, bmp2@),
    {
        bmp1.width() == bmp2.width() && bmp1.height() == bmp2.height() && bmp1.pixel_size()
            == bmp2.pixel_size()
    }

    /// Pixel `index` read as one unsigned integer, its bytes little-endian.
    pub fn pixel_as_u64(&self, index: usize) -> (r: u64)
        requires
            measurable(self@),
            index < self@.num_pixels(),
        ensures
            r == pixel_value(self@, index as nat),
    {
        proof {
            lemma_pixel_value_bound(self@, index as nat);
            lemma_pixel_in_bounds(self@, index as nat);
        }
        let bytes = self.pixel(index).unwrap();
        let ghost s = bytes@;
        assert(s.len() == self@.bytes_per_pixel());
        let n = bytes.len();
        let mut j: usize = n;
        let mut aux: u64 = 0;
        assert(s.subrange(n as int, n as int) =~= Seq::<u8>::empty());
        while j > 0
            invariant
                j <= n,
                n == s.len(),
                bytes@ == s,
                n <= 4,
                aux == le_value(s.subrange(j as int, n as int)),
            decreases j,
        {
            let ghost tail = s.subrange(j as int, n as int);
            assert(s.subrange(j - 1, n as int).drop_first() =~= tail);
            proof {
                lemma_le_value_bound(tail);
                lemma_pow256_4();
                if tail.len() == 0 {
                } else if tail.len() == 1 {
                } else if tail.len() == 2 {
                } else {
                    assert(tail.len() == 3);
                }
            }
            aux = aux * 256 + bytes[j - 1] as u64;
            j -= 1;
        }
        assert(s.subrange(0, n as int) =~= s);
        aux
    }
}

/// Sum over all pixels of the squared difference between the two images'
/// pixel values; the mean squared error is this sum over the pixel count.
/// Stores that differ in width, height or depth are refused.
pub fn squared_error_sum(bmp1: &BMP, bmp2: &BMP) -> (r: Result<u128, NotComparableError>)
    requires
        measurable(bmp1@),
        measurable(bmp2@),
    ensures
        !comparable(bmp1@, bmp2@) ==> r == Err::<u128, NotComparableError>(NotComparableError),
        comparable(bmp1@, bmp2@) ==> r == Ok::<u128, NotComparableError>(
            squared_error(bmp1@, bmp2@) as u128,
        ),
        comparable(bmp1@, bmp2@) ==> squared_error(bmp1@, bmp2@) <= u128::MAX,
{
    if !BMP::comparable(bmp1, bmp2) {
        return Err(NotComparableError);
    }
    let n = bmp1.num_pixels();
    // The buffer's length, a usize, bounds the pixel count.
    let _total = bmp1.as_bytes().len();
    proof {
        lemma_num_pixels_fit(bmp1@);
    }
    let mut i: u64 = 0;
    let mut acc: u128 = 0;
    assert(bmp1@.num_pixels() <= 0x4000_0000_0000_0000) by (nonlinear_arith)
        requires
            bmp1@.num_pixels() == bmp1@.columns() * bmp1@.rows(),
            bmp1@.columns() <= 0x8000_0000,
            bmp1@.rows() <= 0x8000_0000,
    ;
    while i < n
        invariant
            n == bmp1@.num_pixels(),
            n == bmp2@.num_pixels(),
            n <= 0x4000_0000_0000_0000,
            n <= usize::MAX,
            i <= n,
            measurable(bmp1@),
            measurable(bmp2@),
            acc == squared_error_upto(bmp1@, bmp2@, i as nat),
            acc <= i * 0x1_0000_0000_0000_0000,
        decreases n - i,
    {
        proof {
            lemma_pixel_value_bound(bmp1@, i as nat);
            lemma_pixel_value_bound(bmp2@, i as nat);
        }
        let x = bmp1.pixel_as_u64(i as usize);
        let y = bmp2.pixel_as_u64(i as usize);
        let d: u64 = if x >= y {
            x - y
        } else {
            y - x
        };
        assert((d as int) * (d as int) < 0x1_0000_0000_0000_0000) by (nonlinear_arith)
            requires
                d < 4294967296,
        ;
        assert((x - y) * (x - y) == (d as int) * (d as int)) by (nonlinear_arith)
            requires
                d == if x >= y {
                    x - y
                } else {
                    y - x
                },
        ;
        let sq = d as u128 * d as u128;
        assert(acc + sq <= (i + 1) * 0x1_0000_0000_0000_0000) by (nonlinear_arith)
            requires
                acc <= i * 0x1_0000_0000_0000_0000,
                sq < 0x1_0000_0000_0000_0000,
        ;
        assert((i + 1) * 0x1_0000_0000_0000_0000 <= 0x4000_0000_0000_0000 * 0x1_0000_0000_0000_0000)
            by (nonlinear_arith)
            requires
                i < 0x4000_0000_0000_0000,
        ;
        acc = acc + sq;
        i += 1;
    }
    Ok(acc)
}

/// Largest pixel value of the image, the peak that the signal-to-noise
/// ratio is measured against; zero for an image without pixels.
pub fn max_pixel_value(bmp: &BMP) -> (r: u64)
    requires
        measurable(bmp@),
    ensures
        r == max_value_upto(bmp@, bmp@.num_pixels()),
{
    let n = bmp.num_pixels();
    // The buffer's length, a usize, bounds the pixel count.
    let _total = bmp.as_bytes().len();
    proof {
        lemma_num_pixels_fit(bmp@);
    }
    let mut i: u64 = 0;
    let mut actual_max_value: u64 = 0;
    while i < n
        invariant
            n == bmp@.num_pixels(),
            n <= usize::MAX,
            i <= n,
            measurable(bmp@),
            actual_max_value == max_value_upto(bmp@, i as nat),
        decreases n - i,
    {
        proof {
            lemma_pixel_value_bound(bmp@, i as nat);
        }
        let x = bmp.pixel_as_u64(i as usize);
        if x > actual_max_value {
            actual_max_value = x;
        }
        i += 1;
    }
    actual_max_value
}

/// An image is at distance zero from itself.
pub proof fn lemma_squared_error_identity(a: BmpView)
    ensures
        squared_error(a, a) == 0,
{
    lemma_squared_error_identity_upto(a, a.num_pixels());
}

proof fn lemma_squared_error_identity_upto(a: BmpView, n: nat)
    ensures
        squared_error_upto(a, a, n) == 0,
    decreases n,
{
    if n > 0 {
        lemma_squared_error_identity_upto(a, (n - 1) as nat);
    }
}

/// The distance between two comparable images does not depend on their
/// order.
pub proof fn lemma_squared_error_symmetric(a: BmpView, b: BmpView)
    requires
        comparable(a, b),
    ensures
        squared_error(a, b) == squared_error(b, a),
{
    lemma_squared_error_symmetric_upto(a, b, a.num_pixels());
}

proof fn lemma_squared_error_symmetric_upto(a: BmpView, b: BmpView, n: nat)
    ensures
        squared_error_upto(a, b, n) == squared_error_upto(b, a, n),
    decreases n,
{
    if n > 0 {
        lemma_squared_error_symmetric_upto(a, b, (n - 1) as nat);
        let x = pixel_value(a, (n - 1) as nat);
        let y = pixel_value(b, (n - 1) as nat);
        assert((x - y) * (x - y) == (y - x) * (y - x)) by (nonlinear_arith);
    }
}

} // verus!
