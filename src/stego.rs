//! Hiding a short text in the low-order bits of a bitmap's pixels, and
//! reading it back.
//!
//! Everything the codec reads or writes is the first byte of a pixel, so its
//! behaviour is stated over the store's least-significant-byte plane: the
//! sequence of those first bytes, in pixel order.
use crate::bitmap::{lemma_num_pixels_fit, lemma_same_except_plane_refl, lemma_same_except_plane_trans, BmpView, BMP};
use vstd::prelude::*;
use vstd::utf8::{
    decode_utf8, encode_utf8, encode_utf8_decode_utf8, encode_utf8_valid_utf8, valid_utf8,
};

verus! {

/// Bits in a byte.
pub const BYTE_SIZE: u8 = 8;

/// Longest text that can be hidden: its length is stored in one byte.
pub const MAX_TEXT_SIZE: usize = 255;

/// Pixels at the start of the image that hold `k - 1`, one bit each.
pub const HEADER_PIXELS: usize = 3;

/// Why a text could not be hidden or recovered.
#[derive(Debug, Clone, Copy, PartialEq, Eq, Structural)]
pub enum StegoError {
    /// The bits per pixel are not in `1..=8`.
    InvalidBitsPerPixel,
    /// The text is empty.
    EmptyText,
    /// The text is longer than [`MAX_TEXT_SIZE`] bytes.
    TextTooLong,
    /// The image has no pixel beyond the header pixels.
    NoUsablePixels,
    /// The text and its length byte do not fit in the usable pixels.
    InsufficientCapacity,
    /// Some pixel of the image lies outside the file's bytes.
    PixelsOutOfBounds,
    /// The image does not hold a header and length that fit its pixels.
    NoHiddenText,
    /// The recovered bytes are not UTF-8.
    InvalidUtf8,
}

/// Mask of the `n` low-order bits of a byte, for `n` in `1..=8`.
pub open spec fn low_mask(n: u8) -> u8 {
    0xFFu8 >> ((8 - n) as u8)
}

/// `b` with its `n` low-order bits replaced by those of `v`.
pub open spec fn set_low(b: u8, n: u8, v: u8) -> u8 {
    (b & !low_mask(n)) | (v & low_mask(n))
}

/// Pixels taken by the `shift` low-order bits of a byte, `k` bits per pixel.
pub open spec fn chunk_count(k: u8, shift: u8) -> nat
    decreases shift,
{
    if k > 0 && shift > k {
        1 + chunk_count(k, (shift - k) as u8)
    } else {
        1
    }
}

/// Pixels taken by one byte, `k` bits per pixel.
pub open spec fn pixels_per_char(k: u8) -> nat {
    chunk_count(k, BYTE_SIZE)
}

/// Writes the `shift` low-order bits of `x` into the plane from pixel `c`,
/// `k` bits per pixel, the most significant chunk first; the last pixel
/// takes what remains.
pub open spec fn write_bits(p: Seq<u8>, x: u8, k: u8, c: int, shift: u8) -> Seq<u8>
    decreases shift,
{
    if k > 0 && shift > k {
        let s = (shift - k) as u8;
        write_bits(p.update(c, set_low(p[c], k, x >> s)), x, k, c + 1, s)
    } else {
        p.update(c, set_low(p[c], shift, x))
    }
}

/// Reads back, from pixel `c`, what [`write_bits`] writes there.
pub open spec fn read_bits(p: Seq<u8>, k: u8, c: int, shift: u8) -> u8
    decreases shift,
{
    if k > 0 && shift > k {
        let s = (shift - k) as u8;
        ((p[c] << s) & low_mask(shift)) | read_bits(p, k, c + 1, s)
    } else {
        p[c] & low_mask(shift)
    }
}

/// The skip that the scatter formula gives, before it is bounded by the
/// remaining budget.
pub open spec fn raw_jump(prev: u8, k: u8, pad: nat) -> u8 {
    let xor = ((pad % 256) as u8) ^ prev;
    if xor & 1u8 != 0 {
        (((xor % ((8 * k) as u8)) + 1) as u8) | (((pad + 1) % 256) as u8)
    } else {
        0
    }
}

/// Pixels skipped before the next character: none once the budget is spent,
/// and never more than what is left of it.
pub open spec fn jump(prev: u8, k: u8, pad: nat) -> nat {
    if pad == 0 {
        0
    } else if raw_jump(prev, k, pad) as nat > pad {
        pad
    } else {
        raw_jump(prev, k, pad) as nat
    }
}

/// Hides the bytes of `t` from index `i` on, the next character going after
/// pixel `c - 1` and a skip, with `pad` pixels of skip budget left.
pub open spec fn write_text(p: Seq<u8>, t: Seq<u8>, k: u8, i: nat, c: int, pad: nat) -> Seq<
    u8,
>
    decreases t.len() - i,
{
    if i >= t.len() {
        p
    } else {
        let j = jump(p[c - 1], k, pad);
        write_text(
            write_bits(p, t[i as int], k, c + j, BYTE_SIZE),
            t,
            k,
            i + 1,
            c + j + pixels_per_char(k),
            (pad - j) as nat,
        )
    }
}

/// Reads back `n - i` characters as [`write_text`] lays them out.
pub open spec fn read_text(p: Seq<u8>, k: u8, n: nat, i: nat, c: int, pad: nat) -> Seq<u8>
    decreases n - i,
{
    if i >= n {
        Seq::empty()
    } else {
        let j = jump(p[c - 1], k, pad);
        seq![read_bits(p, k, c + j, BYTE_SIZE)] + read_text(
            p,
            k,
            n,
            i + 1,
            c + j + pixels_per_char(k),
            (pad - j) as nat,
        )
    }
}

/// Bit `b` of `k - 1`.
pub open spec fn header_bit(k: u8, b: u8) -> u8 {
    (((k - 1) as u8) >> b) & 1u8
}

/// Stores `k - 1` in the lowest bits of the first three pixels, the most
/// significant bit first.
pub open spec fn write_header(p: Seq<u8>, k: u8) -> Seq<u8> {
    p.update(0, (p[0] & 0xFEu8) | header_bit(k, 2)).update(
        1,
        (p[1] & 0xFEu8) | header_bit(k, 1),
    ).update(2, (p[2] & 0xFEu8) | header_bit(k, 0))
}

/// The bits per pixel that the first three pixels announce.
pub open spec fn read_k(p: Seq<u8>) -> u8 {
    ((((p[0] & 1u8) << 2u8) | ((p[1] & 1u8) << 1u8) | (p[2] & 1u8)) + 1) as u8
}

/// Skip budget: usable pixels that the text and its length byte leave free.
pub open spec fn initial_padding(np: nat, len: nat, k: u8) -> int {
    np - HEADER_PIXELS - (len + 1) * pixels_per_char(k)
}

/// The plane after hiding `t` with `k` bits per pixel.
pub open spec fn embed_plane(p: Seq<u8>, t: Seq<u8>, k: u8) -> Seq<u8> {
    let p1 = write_header(p, k);
    let p2 = write_bits(p1, t.len() as u8, k, HEADER_PIXELS as int, BYTE_SIZE);
    write_text(
        p2,
        t,
        k,
        0,
        HEADER_PIXELS + pixels_per_char(k),
        initial_padding(p.len(), t.len(), k) as nat,
    )
}

/// The hidden bytes of a plane, where its header and length byte fit it.
pub open spec fn extract_plane(p: Seq<u8>) -> Option<Seq<u8>> {
    if p.len() < HEADER_PIXELS {
        None
    } else {
        let k = read_k(p);
        if p.len() < HEADER_PIXELS + pixels_per_char(k) {
            None
        } else {
            let n = read_bits(p, k, HEADER_PIXELS as int, BYTE_SIZE);
            if initial_padding(p.len(), n as nat, k) < 0 {
                None
            } else {
                Some(
                    read_text(
                        p,
                        k,
                        n as nat,
                        0,
                        HEADER_PIXELS + pixels_per_char(k),
                        initial_padding(p.len(), n as nat, k) as nat,
                    ),
                )
            }
        }
    }
}

/// Why hiding `len` bytes with `k` bits per pixel in an image of `np`
/// pixels is refused, checked in this order; `None` where it is not.
pub open spec fn hide_error(np: nat, len: nat, k: u8, in_bounds: bool) -> Option<StegoError> {
    if k == 0 || k > BYTE_SIZE {
        Some(StegoError::InvalidBitsPerPixel)
    } else if len == 0 {
        Some(StegoError::EmptyText)
    } else if len > MAX_TEXT_SIZE {
        Some(StegoError::TextTooLong)
    } else if np <= HEADER_PIXELS {
        Some(StegoError::NoUsablePixels)
    } else if (np - HEADER_PIXELS) * k <= (len + 1) * BYTE_SIZE || initial_padding(np, len, k)
        < 0 {
        Some(StegoError::InsufficientCapacity)
    } else if !in_bounds {
        Some(StegoError::PixelsOutOfBounds)
    } else {
        None
    }
}

// ---- facts on single bytes ----

proof fn lemma_full_mask(x: u8)
    ensures
        x & low_mask(BYTE_SIZE) == x,
{
    assert(x & (0xFFu8 >> 0u8) == x) by (bit_vector);
}

proof fn lemma_bits_step(b: u8, x: u8, k: u8, s: u8)
    requires
        1 <= k < s <= 8,
    ensures
        (((set_low(b, k, x >> ((s - k) as u8)) << ((s - k) as u8)) & low_mask(s)) | (x
            & low_mask((s - k) as u8))) == x & low_mask(s),
{
    let t = (s - k) as u8;
    let m8 = (8 - s) as u8;
    let mk = (8 - k) as u8;
    let mt = (8 - t) as u8;
    assert(((((b & !(0xFFu8 >> mk)) | ((x >> t) & (0xFFu8 >> mk))) << t) & (0xFFu8 >> m8)) | (x
        & (0xFFu8 >> mt)) == x & (0xFFu8 >> m8)) by (bit_vector)
        requires
            1 <= k < s <= 8,
            t == s - k,
            m8 == 8 - s,
            mk == 8 - k,
            mt == 8 - t,
    ;
}

proof fn lemma_bits_base(b: u8, x: u8, s: u8)
    requires
        1 <= s <= 8,
    ensures
        set_low(b, s, x) & low_mask(s) == x & low_mask(s),
{
    let m = (8 - s) as u8;
    assert(((b & !(0xFFu8 >> m)) | (x & (0xFFu8 >> m))) & (0xFFu8 >> m) == x & (0xFFu8 >> m))
        by (bit_vector);
}

proof fn lemma_chunk_count_bounds(k: u8, s: u8)
    requires
        1 <= k,
        1 <= s <= 8,
    ensures
        1 <= chunk_count(k, s) <= s,
    decreases s,
{
    if s > k {
        lemma_chunk_count_bounds(k, (s - k) as u8);
    }
}

proof fn lemma_pixels_per_char(k: u8)
    requires
        1 <= k <= 8,
    ensures
        pixels_per_char(k) == 8int / (k as int) + if 8int % (k as int) != 0 {
            1int
        } else {
            0
        },
        pixels_per_char(k) * k >= 8,
        1 <= pixels_per_char(k) <= 8,
{
    lemma_chunk_count_bounds(k, 8);
    assert(pixels_per_char(k) == chunk_count(k, 8u8));
    if k == 1 {
        assert(chunk_count(1u8, 1u8) == 1);
        assert(chunk_count(1u8, 2u8) == 2);
        assert(chunk_count(1u8, 3u8) == 3);
        assert(chunk_count(1u8, 4u8) == 4);
        assert(chunk_count(1u8, 5u8) == 5);
        assert(chunk_count(1u8, 6u8) == 6);
        assert(chunk_count(1u8, 7u8) == 7);
        assert(chunk_count(1u8, 8u8) == 8);
        assert(pixels_per_char(k) * k == 8) by (nonlinear_arith)
            requires
                pixels_per_char(k) == 8,
                k == 1,
        ;
        assert(8int / (1int) == 8int && 8int % (1int) == 0int);
        assert(pixels_per_char(k) == 8);
    } else if k == 2 {
        assert(chunk_count(2u8, 2u8) == 1);
        assert(chunk_count(2u8, 4u8) == 2);
        assert(chunk_count(2u8, 6u8) == 3);
        assert(chunk_count(2u8, 8u8) == 4);
        assert(pixels_per_char(k) * k == 8) by (nonlinear_arith)
            requires
                pixels_per_char(k) == 4,
                k == 2,
        ;
        assert(8int / (2int) == 4int && 8int % (2int) == 0int);
        assert(pixels_per_char(k) == 4);
    } else if k == 3 {
        assert(chunk_count(3u8, 2u8) == 1);
        assert(chunk_count(3u8, 5u8) == 2);
        assert(chunk_count(3u8, 8u8) == 3);
        assert(pixels_per_char(k) * k == 9) by (nonlinear_arith)
            requires
                pixels_per_char(k) == 3,
                k == 3,
        ;
        assert(8int / (3int) == 2int && 8int % (3int) == 2int);
        assert(pixels_per_char(k) == 3);
    } else if k == 4 {
        assert(chunk_count(4u8, 4u8) == 1);
        assert(chunk_count(4u8, 8u8) == 2);
        assert(pixels_per_char(k) * k == 8) by (nonlinear_arith)
            requires
                pixels_per_char(k) == 2,
                k == 4,
        ;
        assert(8int / (4int) == 2int && 8int % (4int) == 0int);
        assert(pixels_per_char(k) == 2);
    } else if k == 5 {
        assert(chunk_count(5u8, 3u8) == 1);
        assert(chunk_count(5u8, 8u8) == 2);
        assert(pixels_per_char(k) * k == 10) by (nonlinear_arith)
            requires
                pixels_per_char(k) == 2,
                k == 5,
        ;
        assert(8int / (5int) == 1int && 8int % (5int) == 3int);
        assert(pixels_per_char(k) == 2);
    } else if k == 6 {
        assert(chunk_count(6u8, 2u8) == 1);
        assert(chunk_count(6u8, 8u8) == 2);
        assert(pixels_per_char(k) * k == 12) by (nonlinear_arith)
            requires
                pixels_per_char(k) == 2,
                k == 6,
        ;
        assert(8int / (6int) == 1int && 8int % (6int) == 2int);
        assert(pixels_per_char(k) == 2);
    } else if k == 7 {
        assert(chunk_count(7u8, 1u8) == 1);
        assert(chunk_count(7u8, 8u8) == 2);
        assert(pixels_per_char(k) * k == 14) by (nonlinear_arith)
            requires
                pixels_per_char(k) == 2,
                k == 7,
        ;
        assert(8int / (7int) == 1int && 8int % (7int) == 1int);
        assert(pixels_per_char(k) == 2);
    } else {
        assert(chunk_count(8u8, 8u8) == 1);
        assert(pixels_per_char(k) * k == 8) by (nonlinear_arith)
            requires
                pixels_per_char(k) == 1,
                k == 8,
        ;
        assert(8int / (8int) == 1int && 8int % (8int) == 0int);
        assert(pixels_per_char(k) == 1);
    }
}

/// [`write_bits`] keeps the length and touches only its own pixels.
proof fn lemma_write_bits_frame(p: Seq<u8>, x: u8, k: u8, c: int, s: u8)
    requires
        1 <= k,
        1 <= s <= 8,
        0 <= c,
        c + chunk_count(k, s) <= p.len(),
    ensures
        write_bits(p, x, k, c, s).len() == p.len(),
        forall|i: int|
            0 <= i < p.len() && !(c <= i < c + chunk_count(k, s)) ==> #[trigger] write_bits(
                p,
                x,
                k,
                c,
                s,
            )[i] == p[i],
    decreases s,
{
    if s > k {
        let t = (s - k) as u8;
        let p1 = p.update(c, set_low(p[c], k, x >> t));
        lemma_write_bits_frame(p1, x, k, c + 1, t);
    }
}

/// [`read_bits`] looks only at its own pixels.
proof fn lemma_read_bits_frame(p: Seq<u8>, q: Seq<u8>, k: u8, c: int, s: u8)
    requires
        1 <= k,
        1 <= s <= 8,
        0 <= c,
        c + chunk_count(k, s) <= p.len(),
        c + chunk_count(k, s) <= q.len(),
        forall|i: int| c <= i < c + chunk_count(k, s) ==> p[i] == q[i],
    ensures
        read_bits(p, k, c, s) == read_bits(q, k, c, s),
    decreases s,
{
    if s > k {
        lemma_read_bits_frame(p, q, k, c + 1, (s - k) as u8);
    }
}

/// Reading back what was written gives the bits written.
proof fn lemma_byte_round_trip(p: Seq<u8>, x: u8, k: u8, c: int, s: u8)
    requires
        1 <= k,
        1 <= s <= 8,
        0 <= c,
        c + chunk_count(k, s) <= p.len(),
    ensures
        read_bits(write_bits(p, x, k, c, s), k, c, s) == x & low_mask(s),
    decreases s,
{
    if s > k {
        let t = (s - k) as u8;
        let p1 = p.update(c, set_low(p[c], k, x >> t));
        lemma_write_bits_frame(p1, x, k, c + 1, t);
        lemma_byte_round_trip(p1, x, k, c + 1, t);
        lemma_bits_step(p[c], x, k, s);
    } else {
        lemma_bits_base(p[c], x, s);
    }
}

// ---- facts on texts ----

/// [`write_text`] keeps the length and touches no pixel before `c`.
proof fn lemma_write_text_frame(p: Seq<u8>, t: Seq<u8>, k: u8, i: nat, c: int, pad: nat)
    requires
        1 <= k <= 8,
        1 <= c,
        i <= t.len(),
        c + (t.len() - i) * pixels_per_char(k) + pad <= p.len(),
    ensures
        write_text(p, t, k, i, c, pad).len() == p.len(),
        forall|j: int| 0 <= j < c ==> #[trigger] write_text(p, t, k, i, c, pad)[j] == p[j],
    decreases t.len() - i,
{
    if i < t.len() {
        let ppc = pixels_per_char(k);
        let j = jump(p[c - 1], k, pad);
        let p1 = write_bits(p, t[i as int], k, c + j, BYTE_SIZE);
        lemma_pixels_per_char(k);
        assert((t.len() - i) * ppc == ppc + (t.len() - i - 1) * ppc) by (nonlinear_arith);
        lemma_write_bits_frame(p, t[i as int], k, c + j, BYTE_SIZE);
        lemma_write_text_frame(p1, t, k, i + 1, c + j + ppc, (pad - j) as nat);
    }
}

/// Reading back a hidden text gives the text.
proof fn lemma_text_round_trip(p: Seq<u8>, t: Seq<u8>, k: u8, i: nat, c: int, pad: nat)
    requires
        1 <= k <= 8,
        1 <= c,
        i <= t.len(),
        c + (t.len() - i) * pixels_per_char(k) + pad <= p.len(),
    ensures
        read_text(write_text(p, t, k, i, c, pad), k, t.len(), i, c, pad) == t.subrange(
            i as int,
            t.len() as int,
        ),
    decreases t.len() - i,
{
    let q = write_text(p, t, k, i, c, pad);
    if i < t.len() {
        let ppc = pixels_per_char(k);
        let j = jump(p[c - 1], k, pad);
        let c1 = c + j + ppc;
        let p1 = write_bits(p, t[i as int], k, c + j, BYTE_SIZE);
        lemma_pixels_per_char(k);
        assert((t.len() - i) * ppc == ppc + (t.len() - i - 1) * ppc) by (nonlinear_arith);
        lemma_write_bits_frame(p, t[i as int], k, c + j, BYTE_SIZE);
        lemma_write_text_frame(p1, t, k, i + 1, c1, (pad - j) as nat);
        lemma_write_text_frame(p, t, k, i, c, pad);
        assert(q[c - 1] == p[c - 1]);
        lemma_read_bits_frame(q, p1, k, c + j, BYTE_SIZE);
        lemma_byte_round_trip(p, t[i as int], k, c + j, BYTE_SIZE);
        lemma_full_mask(t[i as int]);
        lemma_text_round_trip(p1, t, k, i + 1, c1, (pad - j) as nat);
        assert(read_text(q, k, t.len(), i, c, pad) =~= t.subrange(i as int, t.len() as int));
    } else {
        assert(t.subrange(i as int, t.len() as int) =~= Seq::<u8>::empty());
    }
}

proof fn lemma_header(p: Seq<u8>, k: u8)
    requires
        1 <= k <= 8,
        p.len() >= 3,
    ensures
        read_k(write_header(p, k)) == k,
        write_header(p, k).len() == p.len(),
        forall|i: int| 3 <= i < p.len() ==> #[trigger] write_header(p, k)[i] == p[i],
{
    let q = write_header(p, k);
    let e = (k - 1) as u8;
    let (a0, a1, a2) = (p[0], p[1], p[2]);
    let x0 = (p[0] & 0xFEu8) | ((e >> 2u8) & 1u8);
    let x1 = (p[1] & 0xFEu8) | ((e >> 1u8) & 1u8);
    let x2 = (p[2] & 0xFEu8) | ((e >> 0u8) & 1u8);
    assert(q[0] == x0 && q[1] == x1 && q[2] == x2);
    assert(((((x0 & 1u8) << 2u8) | ((x1 & 1u8) << 1u8) | (x2 & 1u8)) + 1) as u8 == k)
        by (bit_vector)
        requires
            1 <= k <= 8,
            e == k - 1,
            x0 == (a0 & 0xFEu8) | ((e >> 2u8) & 1u8),
            x1 == (a1 & 0xFEu8) | ((e >> 1u8) & 1u8),
            x2 == (a2 & 0xFEu8) | ((e >> 0u8) & 1u8),
    ;
}

/// Reading back a freshly hidden text gives the text, and the bits per
/// pixel that were used: the codec is its own inverse on every plane with
/// room for the text.
pub proof fn lemma_round_trip(p: Seq<u8>, t: Seq<u8>, k: u8)
    requires
        hide_error(p.len(), t.len(), k, true) is None,
    ensures
        extract_plane(embed_plane(p, t, k)) == Some(t),
        read_k(embed_plane(p, t, k)) == k,
        embed_plane(p, t, k).len() == p.len(),
{
    let ppc = pixels_per_char(k);
    let hp = HEADER_PIXELS as int;
    lemma_pixels_per_char(k);
    let pad = initial_padding(p.len(), t.len(), k) as nat;
    let p1 = write_header(p, k);
    let p2 = write_bits(p1, t.len() as u8, k, hp, BYTE_SIZE);
    let q = embed_plane(p, t, k);
    lemma_header(p, k);
    assert((t.len() + 1) * ppc == ppc + t.len() * ppc) by (nonlinear_arith);
    lemma_write_bits_frame(p1, t.len() as u8, k, hp, BYTE_SIZE);
    lemma_write_text_frame(p2, t, k, 0, hp + ppc, pad);
    assert(q.len() == p.len());
    assert(q[0] == p1[0] && q[1] == p1[1] && q[2] == p1[2]);
    assert(read_k(q) == read_k(p1));
    lemma_read_bits_frame(q, p2, k, hp, BYTE_SIZE);
    lemma_byte_round_trip(p1, t.len() as u8, k, hp, BYTE_SIZE);
    let n = t.len() as u8;
    lemma_full_mask(n);
    assert(read_bits(q, k, hp, BYTE_SIZE) as nat == t.len());
    lemma_text_round_trip(p2, t, k, 0, hp + ppc, pad);
    assert(t.subrange(0, t.len() as int) =~= t);
}

// ---- executable codec ----

/// Relies on `String::from_utf8`: it succeeds exactly on valid UTF-8, and the
/// string then holds the characters that the bytes encode.
#[verifier::external_body]
fn string_from_utf8(v: Vec<u8>) -> (r: Option<String>)
    ensures
        r is Some <==> valid_utf8(v@),
        r is Some ==> r->Some_0@ == decode_utf8(v@),
{
    String::from_utf8(v).ok()
}

fn low_bits(n: u8) -> (r: u8)
    requires
        1 <= n <= 8,
    ensures
        r == low_mask(n),
{
    0xFFu8 >> (8 - n)
}

fn set_low_bits(b: u8, n: u8, v: u8) -> (r: u8)
    requires
        1 <= n <= 8,
    ensures
        r == set_low(b, n, v),
{
    let m = low_bits(n);
    (b & !m) | (v & m)
}

fn pixels_per_char_exec(k: u8) -> (r: u8)
    requires
        1 <= k <= 8,
    ensures
        r == pixels_per_char(k),
        1 <= r <= 8,
{
    proof {
        lemma_pixels_per_char(k);
    }
    let mut aux = BYTE_SIZE / k;
    if BYTE_SIZE % k != 0 {
        aux += 1;
    }
    aux
}

/// The scatter formula: a skip that depends on the remaining budget and on
/// the byte last written or read.
fn padding_jump(prev_byte: u8, k: u8, padding_left: usize) -> (r: u8)
    requires
        1 <= k <= 8,
    ensures
        r == raw_jump(prev_byte, k, padding_left as nat),
{
    let low = padding_left % 256;
    let xor = low as u8 ^ prev_byte;
    if xor & 0x01 != 0x00 {
        let next: u8 = if low == 255 {
            0
        } else {
            (low + 1) as u8
        };
        assert(next == ((padding_left + 1) % 256) as u8);
        ((xor % (BYTE_SIZE * k)) + 1) | next
    } else {
        0
    }
}

/// Hides `byte` in the pixels from `*pixel_number` on, `k` bits per pixel,
/// and moves the cursor past them.
fn hide_byte(byte: u8, k: u8, bmp: &mut BMP, pixel_number: &mut usize)
    requires
        1 <= k <= 8,
        old(bmp)@.wf(),
        old(bmp)@.pixels_in_bounds(),
        *old(pixel_number) + pixels_per_char(k) <= old(bmp)@.num_pixels(),
        old(bmp)@.num_pixels() <= usize::MAX,
    ensures
        final(bmp)@.same_except_plane(old(bmp)@),
        final(bmp)@.lsb_plane() == write_bits(
            old(bmp)@.lsb_plane(),
            byte,
            k,
            *old(pixel_number) as int,
            BYTE_SIZE,
        ),
        *final(pixel_number) == *old(pixel_number) + pixels_per_char(k),
{
    let ghost v0 = bmp@;
    let ghost c0 = *pixel_number;
    let mut pc: usize = *pixel_number;
    let mut shift: u8 = BYTE_SIZE;
    proof {
        lemma_same_except_plane_refl(v0);
    }
    while shift > k
        invariant
            1 <= k <= 8,
            1 <= shift <= 8,
            v0.wf(),
            v0.pixels_in_bounds(),
            bmp@.same_except_plane(v0),
            pc + chunk_count(k, shift) == c0 + pixels_per_char(k),
            c0 + pixels_per_char(k) <= v0.num_pixels(),
            v0.num_pixels() <= usize::MAX,
            write_bits(bmp@.lsb_plane(), byte, k, pc as int, shift) == write_bits(
                v0.lsb_plane(),
                byte,
                k,
                c0 as int,
                BYTE_SIZE,
            ),
        decreases shift,
    {
        proof {
            lemma_chunk_count_bounds(k, (shift - k) as u8);
        }
        shift -= k;
        let b = bmp.pixel_byte(pc);
        let ghost before = bmp@;
        bmp.set_pixel_byte(pc, set_low_bits(b, k, byte >> shift));
        proof {
            lemma_same_except_plane_trans(v0, before, bmp@);
        }
        pc += 1;
    }
    proof {
        lemma_chunk_count_bounds(k, shift);
    }
    let b = bmp.pixel_byte(pc);
    let ghost before = bmp@;
    bmp.set_pixel_byte(pc, set_low_bits(b, shift, byte));
    proof {
        lemma_same_except_plane_trans(v0, before, bmp@);
    }
    *pixel_number = pc + 1;
}

proof fn lemma_or_assoc(a: u8, b: u8, c: u8)
    ensures
        a | (b | c) == (a | b) | c,
        0u8 | a == a,
{
    assert(a | (b | c) == (a | b) | c) by (bit_vector);
    assert(0u8 | a == a) by (bit_vector);
}

/// Reads back a byte hidden from `*pixel_number` on, `k` bits per pixel, and
/// moves the cursor past it.
fn get_byte(bmp: &BMP, k: u8, pixel_number: &mut usize) -> (r: u8)
    requires
        1 <= k <= 8,
        bmp@.wf(),
        bmp@.pixels_in_bounds(),
        *old(pixel_number) + pixels_per_char(k) <= bmp@.num_pixels(),
        bmp@.num_pixels() <= usize::MAX,
    ensures
        r == read_bits(bmp@.lsb_plane(), k, *old(pixel_number) as int, BYTE_SIZE),
        *final(pixel_number) == *old(pixel_number) + pixels_per_char(k),
{
    let ghost p = bmp@.lsb_plane();
    let ghost c0 = *pixel_number;
    let mut pc: usize = *pixel_number;
    let mut shift: u8 = BYTE_SIZE;
    let mut res: u8 = 0;
    proof {
        lemma_or_assoc(read_bits(p, k, c0 as int, BYTE_SIZE), 0, 0);
    }
    while shift > k
        invariant
            1 <= k <= 8,
            1 <= shift <= 8,
            p == bmp@.lsb_plane(),
            bmp@.wf(),
            bmp@.pixels_in_bounds(),
            pc + chunk_count(k, shift) == c0 + pixels_per_char(k),
            c0 + pixels_per_char(k) <= bmp@.num_pixels(),
            bmp@.num_pixels() <= usize::MAX,
            res | read_bits(p, k, pc as int, shift) == read_bits(p, k, c0 as int, BYTE_SIZE),
        decreases shift,
    {
        proof {
            lemma_chunk_count_bounds(k, (shift - k) as u8);
        }
        let s = shift - k;
        let b = bmp.pixel_byte(pc);
        let part = (b << s) & low_bits(shift);
        proof {
            lemma_or_assoc(res, part, read_bits(p, k, pc + 1, s));
        }
        res = res | part;
        shift = s;
        pc += 1;
    }
    proof {
        lemma_chunk_count_bounds(k, shift);
    }
    let b = bmp.pixel_byte(pc);
    res = res | (b & low_bits(shift));
    *pixel_number = pc + 1;
    res
}

fn header_bit_exec(k: u8, b: u8) -> (r: u8)
    requires
        1 <= k <= 8,
        b <= 2,
    ensures
        r == header_bit(k, b),
{
    ((k - 1) >> b) & 0x01
}

/// Hides `text` in the image, `k` bits per pixel: `k - 1` in the lowest bit
/// of the first three pixels, then the text's length in bytes, then each
/// byte, scattered over the pixels that the text leaves free. Nothing is
/// written unless every check passes.
pub fn hide_text(bmp: &mut BMP, text: &str, k: u8) -> (r: Result<(), StegoError>)
    requires
        old(bmp)@.wf(),
    ensures
        hide_error(
            old(bmp)@.num_pixels(),
            encode_utf8(text@).len(),
            k,
            old(bmp)@.pixels_in_bounds(),
        ) is Some ==> r == Err::<(), StegoError>(
            hide_error(
                old(bmp)@.num_pixels(),
                encode_utf8(text@).len(),
                k,
                old(bmp)@.pixels_in_bounds(),
            )->Some_0,
        ) && final(bmp)@ == old(bmp)@,
        hide_error(
            old(bmp)@.num_pixels(),
            encode_utf8(text@).len(),
            k,
            old(bmp)@.pixels_in_bounds(),
        ) is None ==> r is Ok && final(bmp)@.same_except_plane(old(bmp)@)
            && final(bmp)@.lsb_plane() == embed_plane(old(bmp)@.lsb_plane(), encode_utf8(text@), k),
{
    let ghost v0 = bmp@;
    let ghost t = encode_utf8(text@);
    if k == 0 || k > BYTE_SIZE {
        return Err(StegoError::InvalidBitsPerPixel);
    }
    let bytes = text.as_bytes();
    let len = bytes.len();
    if len == 0 {
        return Err(StegoError::EmptyText);
    }
    if len > MAX_TEXT_SIZE {
        return Err(StegoError::TextTooLong);
    }
    let np = bmp.num_pixels();
    if np <= HEADER_PIXELS as u64 {
        return Err(StegoError::NoUsablePixels);
    }
    let usable = np - HEADER_PIXELS as u64;
    let ppc = pixels_per_char_exec(k);
    assert((len as u64 + 1) * ppc as u64 <= 256 * 8) by (nonlinear_arith)
        requires
            len <= 255,
            ppc <= 8,
    ;
    let needed = (len as u64 + 1) * ppc as u64;
    assert(usable as u128 * k as u128 <= u64::MAX as u128 * 8) by (nonlinear_arith)
        requires
            k <= 8,
    ;
    let bits_available = usable as u128 * k as u128;
    let bits_to_hide = (len as u128 + 1) * BYTE_SIZE as u128;
    if bits_available <= bits_to_hide || usable < needed {
        return Err(StegoError::InsufficientCapacity);
    }
    if !bmp.pixels_in_bounds() {
        return Err(StegoError::PixelsOutOfBounds);
    }
    // The buffer's length, a usize, bounds the pixel count.
    let _total = bmp.as_bytes().len();
    proof {
        lemma_num_pixels_fit(bmp@);
        lemma_same_except_plane_refl(v0);
    }
    let np = np as usize;
    let mut pixel_number: usize = 0;
    while pixel_number < HEADER_PIXELS
        invariant
            1 <= k <= 8,
            np == v0.num_pixels(),
            np > HEADER_PIXELS,
            pixel_number <= HEADER_PIXELS,
            bmp@.wf(),
            bmp@.pixels_in_bounds(),
            bmp@.same_except_plane(v0),
            bmp@.num_pixels() == np,
            forall|i: int|
                0 <= i < np ==> #[trigger] bmp@.lsb_plane()[i] == if i < pixel_number {
                    write_header(v0.lsb_plane(), k)[i]
                } else {
                    v0.lsb_plane()[i]
                },
        decreases HEADER_PIXELS - pixel_number,
    {
        let b = bmp.pixel_byte(pixel_number);
        let bit = header_bit_exec(k, (2 - pixel_number) as u8);
        let ghost before = bmp@;
        bmp.set_pixel_byte(pixel_number, (b & 0xFE) | bit);
        proof {
            lemma_same_except_plane_trans(v0, before, bmp@);
        }
        pixel_number += 1;
    }
    assert(bmp@.lsb_plane() =~= write_header(v0.lsb_plane(), k));
    assert((len + 1) * ppc >= ppc) by (nonlinear_arith);
    let ghost before = bmp@;
    hide_byte(len as u8, k, bmp, &mut pixel_number);
    proof {
        lemma_same_except_plane_trans(v0, before, bmp@);
    }
    let mut padding_left = (usable - needed) as usize;
    assert((len + 1) * ppc == len * ppc + ppc) by (nonlinear_arith);
    let mut i: usize = 0;
    while i < len
        invariant
            1 <= k <= 8,
            len == t.len(),
            bytes@ == t,
            ppc == pixels_per_char(k),
            np == v0.num_pixels(),
            np <= usize::MAX,
            v0.wf(),
            bmp@.wf(),
            bmp@.pixels_in_bounds(),
            bmp@.same_except_plane(v0),
            bmp@.num_pixels() == np,
            i <= len,
            pixel_number >= 1,
            pixel_number + (len - i) * ppc + padding_left == np,
            write_text(bmp@.lsb_plane(), t, k, i as nat, pixel_number as int, padding_left as nat)
                == embed_plane(v0.lsb_plane(), t, k),
        decreases len - i,
    {
        assert((len - i) * ppc == ppc + (len - i - 1) * ppc) by (nonlinear_arith)
            requires
                i < len,
        ;
        if padding_left > 0 {
            let prev = bmp.pixel_byte(pixel_number - 1);
            let mut jump = padding_jump(prev, k, padding_left) as usize;
            if jump > padding_left {
                jump = padding_left;
            }
            pixel_number += jump;
            padding_left -= jump;
        }
        let ghost before = bmp@;
        hide_byte(bytes[i], k, bmp, &mut pixel_number);
        proof {
            lemma_same_except_plane_trans(v0, before, bmp@);
        }
        i += 1;
    }
    Ok(())
}

/// Reads back the text that [`hide_text`] hid: the bits per pixel from the
/// first three pixels, then the length byte, then each byte, replaying the
/// same skips.
pub fn get_text(bmp: &BMP) -> (r: Result<String, StegoError>)
    requires
        bmp@.wf(),
    ensures
        !bmp@.pixels_in_bounds() ==> r == Err::<String, StegoError>(
            StegoError::PixelsOutOfBounds,
        ),
        bmp@.pixels_in_bounds() && extract_plane(bmp@.lsb_plane()) is None ==> r == Err::<
            String,
            StegoError,
        >(StegoError::NoHiddenText),
        bmp@.pixels_in_bounds() && extract_plane(bmp@.lsb_plane()) is Some && !valid_utf8(
            extract_plane(bmp@.lsb_plane())->Some_0,
        ) ==> r == Err::<String, StegoError>(StegoError::InvalidUtf8),
        bmp@.pixels_in_bounds() && extract_plane(bmp@.lsb_plane()) is Some && valid_utf8(
            extract_plane(bmp@.lsb_plane())->Some_0,
        ) ==> r is Ok && r->Ok_0@ == decode_utf8(extract_plane(bmp@.lsb_plane())->Some_0),
{
    if !bmp.pixels_in_bounds() {
        return Err(StegoError::PixelsOutOfBounds);
    }
    let np = bmp.num_pixels();
    if np < HEADER_PIXELS as u64 {
        return Err(StegoError::NoHiddenText);
    }
    // The buffer's length, a usize, bounds the pixel count.
    let _total = bmp.as_bytes().len();
    proof {
        lemma_num_pixels_fit(bmp@);
    }
    let np = np as usize;
    let ghost p = bmp@.lsb_plane();
    let a0 = bmp.pixel_byte(0);
    let a1 = bmp.pixel_byte(1);
    let a2 = bmp.pixel_byte(2);
    assert(a0 & 1u8 <= 1 && a1 & 1u8 <= 1 && a2 & 1u8 <= 1) by (bit_vector);
    let b0 = a0 & 0x01;
    let b1 = a1 & 0x01;
    let b2 = a2 & 0x01;
    assert((b0 << 2u8) | (b1 << 1u8) | b2 <= 7) by (bit_vector)
        requires
            b0 <= 1,
            b1 <= 1,
            b2 <= 1,
    ;
    let k: u8 = ((b0 << 2) | (b1 << 1) | b2) + 1;
    assert(k == read_k(p));
    let ppc = pixels_per_char_exec(k);
    if np < HEADER_PIXELS + ppc as usize {
        return Err(StegoError::NoHiddenText);
    }
    let mut pixel_number: usize = HEADER_PIXELS;
    let text_size = get_byte(bmp, k, &mut pixel_number);
    assert((text_size as usize + 1) * ppc as usize <= 256 * 8) by (nonlinear_arith)
        requires
            text_size <= 255,
            ppc <= 8,
    ;
    let needed = (text_size as usize + 1) * ppc as usize;
    if np - HEADER_PIXELS < needed {
        return Err(StegoError::NoHiddenText);
    }
    let mut padding_left = np - HEADER_PIXELS - needed;
    let ghost n = text_size as nat;
    let ghost pad0 = padding_left as nat;
    let ghost whole = read_text(p, k, n, 0, pixel_number as int, pad0);
    assert((n + 1) * ppc == n * ppc + ppc) by (nonlinear_arith);
    let mut text: Vec<u8> = Vec::new();
    let mut i: usize = 0;
    assert(text@ + whole =~= whole);
    while i < text_size as usize
        invariant
            1 <= k <= 8,
            ppc == pixels_per_char(k),
            np == bmp@.num_pixels(),
            np <= usize::MAX,
            p == bmp@.lsb_plane(),
            bmp@.wf(),
            bmp@.pixels_in_bounds(),
            n == text_size,
            i <= n,
            pixel_number >= 1,
            pixel_number + (n - i) * ppc + padding_left == np,
            text@ + read_text(p, k, n, i as nat, pixel_number as int, padding_left as nat)
                == whole,
        decreases n - i,
    {
        assert((n - i) * ppc == ppc + (n - i - 1) * ppc) by (nonlinear_arith)
            requires
                i < n,
        ;
        let ghost rest = read_text(p, k, n, i as nat, pixel_number as int, padding_left as nat);
        if padding_left > 0 {
            let prev = bmp.pixel_byte(pixel_number - 1);
            let mut jump = padding_jump(prev, k, padding_left) as usize;
            if jump > padding_left {
                jump = padding_left;
            }
            pixel_number += jump;
            padding_left -= jump;
        }
        let ghost old_text = text@;
        let b = get_byte(bmp, k, &mut pixel_number);
        text.push(b);
        assert(text@ + read_text(p, k, n, (i + 1) as nat, pixel_number as int, padding_left as nat)
            =~= old_text + rest);
        i += 1;
    }
    assert(text@ =~= whole);
    match string_from_utf8(text) {
        Some(s) => Ok(s),
        None => Err(StegoError::InvalidUtf8),
    }
}

/// Hiding a text and then reading it back gives the text. Whenever hiding
/// is accepted, the store it leaves behind holds exactly the text's bytes,
/// and those bytes decode to the text.
pub proof fn lemma_hide_then_get(before: BmpView, after: BmpView, text: Seq<char>, k: u8)
    requires
        before.wf(),
        hide_error(
            before.num_pixels(),
            encode_utf8(text).len(),
            k,
            before.pixels_in_bounds(),
        ) is None,
        after.same_except_plane(before),
        after.lsb_plane() == embed_plane(before.lsb_plane(), encode_utf8(text), k),
    ensures
        after.wf(),
        after.pixels_in_bounds(),
        extract_plane(after.lsb_plane()) == Some(encode_utf8(text)),
        valid_utf8(encode_utf8(text)),
        decode_utf8(encode_utf8(text)) == text,
{
    lemma_round_trip(before.lsb_plane(), encode_utf8(text), k);
    encode_utf8_valid_utf8(text);
    encode_utf8_decode_utf8(text);
}

/// Bits per pixel outside `1..=8` are refused, whatever the text and image.
pub proof fn lemma_bits_per_pixel_out_of_range(np: nat, len: nat, k: u8, in_bounds: bool)
    requires
        k == 0 || k > BYTE_SIZE,
    ensures
        hide_error(np, len, k, in_bounds) == Some(StegoError::InvalidBitsPerPixel),
{
}

/// A text whose bits, its length byte included, reach the capacity of the
/// usable pixels (`k` bits each) is refused. A text below that capacity is
/// accepted whenever `k` divides eight, so that no pixel is left part-used.
pub proof fn lemma_capacity_boundary(np: nat, len: nat, k: u8)
    requires
        1 <= k <= BYTE_SIZE,
        1 <= len <= MAX_TEXT_SIZE,
        np > HEADER_PIXELS,
    ensures
        (len + 1) * BYTE_SIZE >= (np - HEADER_PIXELS) * k ==> hide_error(np, len, k, true)
            == Some(StegoError::InsufficientCapacity),
        (len + 1) * BYTE_SIZE < (np - HEADER_PIXELS) * k && BYTE_SIZE % k == 0 ==> hide_error(
            np,
            len,
            k,
            true,
        ) is None,
{
    lemma_pixels_per_char(k);
    let ppc = pixels_per_char(k);
    if (len + 1) * 8 < (np - 3) * k && 8int % (k as int) == 0 {
        assert(ppc * k == 8) by (nonlinear_arith)
            requires
                ppc == 8int / (k as int),
                8int % (k as int) == 0,
                k >= 1,
        ;
        assert((len + 1) * ppc <= np - 3) by (nonlinear_arith)
            requires
                ppc * k == 8,
                (len + 1) * 8 < (np - 3) * k,
                k >= 1,
        ;
    }
}

} // verus!
