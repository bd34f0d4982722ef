//! Packing the rows of a mapped RGB video frame into the tightly packed
//! buffer that inference takes.
use vstd::prelude::*;

verus! {

/// How many whole rows of `stride` bytes the plane holds, at most `height`.
pub open spec fn whole_rows(len: nat, stride: nat, height: nat) -> nat {
    let n = len / stride;
    if n < height {
        n
    } else {
        height
    }
}

/// Byte `k` of the packed frame: rows of `width * 3` bytes, each the start
/// of the plane row of the same number; rows the plane does not hold whole
/// stay zero.
pub open spec fn packed_byte(data: Seq<u8>, width: nat, height: nat, stride: nat, k: int) -> u8 {
    let w3 = width * 3;
    let y = k / (w3 as int);
    let i = k % (w3 as int);
    if y < whole_rows(data.len(), stride, height) {
        data[y * stride + i]
    } else {
        0
    }
}

proof fn lemma_row_of(y: int, i: int, w3: int)
    requires
        0 <= y,
        0 <= i < w3,
    ensures
        (y * w3 + i) / w3 == y,
        (y * w3 + i) % w3 == i,
{
    vstd::arithmetic::div_mod::lemma_fundamental_div_mod_converse(y * w3 + i, w3, y, i);
}

/// Copies the first `width * 3` bytes of each row of a plane whose rows
/// are `stride` bytes apart into a buffer of `height` rows of `width * 3`
/// bytes. A last row that the plane does not hold whole is left zero, as
/// are the rows past the plane.
pub fn pack_rgb_rows(data: &[u8], width: usize, height: usize, stride: usize) -> (r: Vec<u8>)
    requires
        width > 0,
        stride > 0,
        width * 3 <= usize::MAX,
        width * height * 3 <= usize::MAX,
        stride >= width * 3 || height == 0 || data.len() < stride,
    ensures
        r.len() == width * height * 3,
        forall|k: int| 0 <= k < r.len() ==> #[trigger] r@[k] == packed_byte(data@, width as nat, height as nat, stride as nat, k),
{
    let w3 = width * 3;
    let full = data.len() / stride;
    let rows = if full < height { full } else { height };
    let mut r: Vec<u8> = Vec::new();
    let mut y: usize = 0;
    proof {
        assert(w3 * height == width * height * 3) by (nonlinear_arith)
            requires
                w3 == width * 3,
        ;
        assert(data.len() / stride >= 1 ==> data.len() >= stride) by (nonlinear_arith)
            requires
                stride > 0,
        ;
    }
    while y < height
        invariant
            w3 == width * 3,
            w3 > 0,
            w3 * height <= usize::MAX,
            rows == whole_rows(data.len() as nat, stride as nat, height as nat),
            rows <= height,
            rows <= data.len() / stride,
            stride > 0,
            rows > 0 ==> stride >= w3,
            y <= height,
            r.len() == y * w3,
            forall|k: int| 0 <= k < r.len() ==> #[trigger] r@[k] == packed_byte(data@, width as nat, height as nat, stride as nat, k),
        decreases height - y,
    {
        assert((y + 1) * w3 <= w3 * height) by (nonlinear_arith)
            requires
                y < height,
                w3 > 0,
        ;
        if y < rows {
            assert(y * stride + stride <= data.len()) by (nonlinear_arith)
                requires
                    y < rows,
                    rows <= data.len() / stride,
                    stride > 0,
            ;
        }
        let mut i: usize = 0;
        while i < w3
            invariant
                w3 == width * 3,
                w3 > 0,
                (y + 1) * w3 <= usize::MAX,
                rows == whole_rows(data.len() as nat, stride as nat, height as nat),
                rows > 0 ==> stride >= w3,
                y < height,
                y < rows ==> y * stride + stride <= data.len(),
                i <= w3,
                r.len() == y * w3 + i,
                forall|k: int| 0 <= k < r.len() ==> #[trigger] r@[k] == packed_byte(data@, width as nat, height as nat, stride as nat, k),
            decreases w3 - i,
        {
            proof {
                lemma_row_of(y as int, i as int, w3 as int);
                assert(y * w3 + i < (y + 1) * w3) by (nonlinear_arith)
                    requires
                        i < w3,
                ;
            }
            let b = if y < rows {
                data[y * stride + i]
            } else {
                0u8
            };
            r.push(b);
            i = i + 1;
        }
        proof {
            assert(y * w3 + w3 == (y + 1) * w3) by (nonlinear_arith);
        }
        y = y + 1;
    }
    proof {
        assert(height * w3 == width * height * 3) by (nonlinear_arith)
            requires
                w3 == width * 3,
        ;
    }
    r
}

} // verus!
