//! The inverse DCT of one 8x8 block, after Arai, Agui and Nakajima, in
//! 32-bit fixed-point arithmetic that wraps on overflow.
//!
//! The coefficients come in already multiplied by the Arai scale factors. The
//! transform runs the same 8-point pass over the columns and then over the
//! rows; the row pass adds the level shift and drops the 8 fractional bits.

use vstd::prelude::*;

verus! {

/// The square root of 2, with 12 fractional bits.
pub const M13: i32 = 5793;

/// 1.08239 with 12 fractional bits.
pub const M2: i32 = 4433;

/// 2.61313 with 12 fractional bits.
pub const M4: i32 = 10703;

/// 1.84776 with 12 fractional bits.
pub const M5: i32 = 7568;

/// The level shift of 128, with the 8 fractional bits of the row pass.
pub const LEVEL_SHIFT: i32 = 32768;

/// The product of `a` and the 12-bit fixed-point constant `m`.
pub open spec fn rotate(a: i32, m: i32) -> i32 {
    a.wrapping_mul(m) >> 12
}

/// The 8-point pass on `x[0] ..= x[7]`.
#[verifier::opaque]
pub open spec fn arai(x: Seq<i32>) -> Seq<i32> {
    let t10 = x[0].wrapping_add(x[4]);
    let t12 = x[0].wrapping_sub(x[4]);
    let s26 = x[6].wrapping_add(x[2]);
    let t11 = rotate(x[2].wrapping_sub(x[6]), M13).wrapping_sub(s26);
    let e0 = t10.wrapping_add(s26);
    let e3 = t10.wrapping_sub(s26);
    let e1 = t11.wrapping_add(t12);
    let e2 = t12.wrapping_sub(t11);
    let d17 = x[1].wrapping_sub(x[7]);
    let s17 = x[1].wrapping_add(x[7]);
    let d53 = x[5].wrapping_sub(x[3]);
    let s53 = x[3].wrapping_add(x[5]);
    let o7 = s53.wrapping_add(s17);
    let t13 = rotate(d17.wrapping_add(d53), M5);
    let o6 = t13.wrapping_sub(rotate(d53, M4)).wrapping_sub(o7);
    let o5 = rotate(s17.wrapping_sub(s53), M13).wrapping_sub(o6);
    let o4 = t13.wrapping_sub(rotate(d17, M2)).wrapping_sub(o5);
    seq![
        e0.wrapping_add(o7),
        e1.wrapping_add(o6),
        e2.wrapping_add(o5),
        e3.wrapping_add(o4),
        e3.wrapping_sub(o4),
        e2.wrapping_sub(o5),
        e1.wrapping_sub(o6),
        e0.wrapping_sub(o7),
    ]
}

/// Column `c` of the block, top to bottom.
pub open spec fn column(block: Seq<i32>, c: int) -> Seq<i32> {
    Seq::new(8, |r: int| block[8 * r + c])
}

/// Row `r` of the block, left to right, with the level shift added to its
/// first element.
pub open spec fn shifted_row(block: Seq<i32>, r: int) -> Seq<i32> {
    Seq::new(
        8,
        |c: int|
            if c == 0 {
                block[8 * r].wrapping_add(LEVEL_SHIFT)
            } else {
                block[8 * r + c]
            },
    )
}

/// The block after the pass over its eight columns.
pub open spec fn column_pass(block: Seq<i32>) -> Seq<i32> {
    Seq::new(64, |k: int| arai(column(block, k % 8))[k / 8])
}

/// The samples of the block: the pass over the rows of [`column_pass`], each
/// result shifted right by 8 and cut to 16 bits.
pub open spec fn idct(block: Seq<i32>) -> Seq<i16> {
    let mid = column_pass(block);
    Seq::new(64, |k: int| (arai(shifted_row(mid, k / 8))[k % 8] >> 8) as i16)
}

fn rotate_by(a: i32, m: i32) -> (r: i32)
    ensures
        r == rotate(a, m),
{
    a.wrapping_mul(m) >> 12
}

fn arai_pass(x: &[i32; 8]) -> (r: [i32; 8])
    ensures
        r@ == arai(x@),
{
    let t10: i32 = x[0].wrapping_add(x[4]);
    let t12: i32 = x[0].wrapping_sub(x[4]);
    let s26: i32 = x[6].wrapping_add(x[2]);
    let t11: i32 = rotate_by(x[2].wrapping_sub(x[6]), M13).wrapping_sub(s26);
    let e0: i32 = t10.wrapping_add(s26);
    let e3: i32 = t10.wrapping_sub(s26);
    let e1: i32 = t11.wrapping_add(t12);
    let e2: i32 = t12.wrapping_sub(t11);
    let d17: i32 = x[1].wrapping_sub(x[7]);
    let s17: i32 = x[1].wrapping_add(x[7]);
    let d53: i32 = x[5].wrapping_sub(x[3]);
    let s53: i32 = x[3].wrapping_add(x[5]);
    let o7: i32 = s53.wrapping_add(s17);
    let t13: i32 = rotate_by(d17.wrapping_add(d53), M5);
    let o6: i32 = t13.wrapping_sub(rotate_by(d53, M4)).wrapping_sub(o7);
    let o5: i32 = rotate_by(s17.wrapping_sub(s53), M13).wrapping_sub(o6);
    let o4: i32 = t13.wrapping_sub(rotate_by(d17, M2)).wrapping_sub(o5);
    let r: [i32; 8] = [
        e0.wrapping_add(o7),
        e1.wrapping_add(o6),
        e2.wrapping_add(o5),
        e3.wrapping_add(o4),
        e3.wrapping_sub(o4),
        e2.wrapping_sub(o5),
        e1.wrapping_sub(o6),
        e0.wrapping_sub(o7),
    ];
    assert(r@ =~= arai(x@)) by {
        reveal(arai);
    }
    r
}

/// Transforms the dequantized block `src`, in raster order, into the samples
/// `dst`. The column pass works in place, so `src` holds its result
/// afterwards.
pub fn block_idct(src: &mut [i32; 64], dst: &mut [i16; 64])
    ensures
        final(src)@ == column_pass(old(src)@),
        final(dst)@ == idct(old(src)@),
{
    let ghost start = src@;
    let mut c: usize = 0;
    while c < 8
        invariant
            c <= 8,
            forall|k: int| 0 <= k < 64 && k % 8 < c ==> src@[k] == column_pass(start)[k],
            forall|k: int| 0 <= k < 64 && k % 8 >= c ==> src@[k] == start[k],
        decreases 8 - c,
    {
        let x: [i32; 8] = [
            src[c],
            src[c + 8],
            src[c + 16],
            src[c + 24],
            src[c + 32],
            src[c + 40],
            src[c + 48],
            src[c + 56],
        ];
        assert(x@ =~= column(start, c as int));
        let y: [i32; 8] = arai_pass(&x);
        src[c] = y[0];
        src[c + 8] = y[1];
        src[c + 16] = y[2];
        src[c + 24] = y[3];
        src[c + 32] = y[4];
        src[c + 40] = y[5];
        src[c + 48] = y[6];
        src[c + 56] = y[7];
        assert forall|k: int| 0 <= k < 64 && k % 8 == c implies src@[k] == column_pass(start)[k] by {
            let j = k / 8;
            assert(k == c + 8 * j);
            assert(0 <= j < 8);
            assert(column_pass(start)[k] == y@[j]);
        }
        c += 1;
    }
    assert(src@ =~= column_pass(start));
    let ghost mid = src@;
    let mut r: usize = 0;
    while r < 8
        invariant
            r <= 8,
            src@ == mid,
            mid == column_pass(start),
            forall|k: int| 0 <= k < 8 * r ==> dst@[k] == idct(start)[k],
        decreases 8 - r,
    {
        let base: usize = 8 * r;
        let x: [i32; 8] = [
            src[base].wrapping_add(LEVEL_SHIFT),
            src[base + 1],
            src[base + 2],
            src[base + 3],
            src[base + 4],
            src[base + 5],
            src[base + 6],
            src[base + 7],
        ];
        assert(x@ =~= shifted_row(mid, r as int));
        let y: [i32; 8] = arai_pass(&x);
        dst[base] = descale(y[0]);
        dst[base + 1] = descale(y[1]);
        dst[base + 2] = descale(y[2]);
        dst[base + 3] = descale(y[3]);
        dst[base + 4] = descale(y[4]);
        dst[base + 5] = descale(y[5]);
        dst[base + 6] = descale(y[6]);
        dst[base + 7] = descale(y[7]);
        assert forall|k: int| 8 * r <= k < 8 * r + 8 implies dst@[k] == idct(start)[k] by {
            let j = k % 8;
            assert(k == base + j);
            assert(k / 8 == r);
            assert(idct(start)[k] == (y@[j] >> 8) as i16);
        }
        r += 1;
    }
    assert(dst@ =~= idct(start));
}

fn descale(v: i32) -> (r: i16)
    ensures
        r == (v >> 8) as i16,
{
    #[verifier::truncate]
    let r: i16 = (v >> 8) as i16;
    r
}

} // verus!
