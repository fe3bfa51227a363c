use vstd::prelude::*;
use vstd::arithmetic::div_mod::lemma_fundamental_div_mod_converse;

use crate::error::PipelineError;
use crate::letterbox::{column_of, lemma_byte_position, row_of};

verus! {

/// The canvas with its two spatial axes exchanged, the layout the scorer
/// reads: byte `c` of cell `(a, b)` of the result, `a` the outer index, is
/// byte `c` of the canvas pixel in column `a`, row `b`.
pub open spec fn transposed(canvas: Seq<u8>, size: nat) -> Seq<u8> {
    Seq::new(
        canvas.len(),
        |i: int| canvas[(column_of(i, size) * size + row_of(i, size)) * 3 + i % 3],
    )
}

/// Where byte `c` of cell `(a, b)` lies in a `size`-wide RGB layout.
proof fn lemma_cell_index(a: int, b: int, c: int, size: nat)
    requires
        0 <= a < size,
        0 <= b < size,
        0 <= c < 3,
    ensures
        row_of((a * size + b) * 3 + c, size) == a,
        column_of((a * size + b) * 3 + c, size) == b,
        ((a * size + b) * 3 + c) % 3 == c,
        0 <= (a * size + b) * 3 + c < size * size * 3,
        0 <= (b * size + a) * 3 + c < size * size * 3,
        0 <= b * size <= b * size + a < size * size,
{
    let i = (a * size + b) * 3 + c;
    lemma_fundamental_div_mod_converse(i, 3, a * size + b, c);
    lemma_fundamental_div_mod_converse(a * size + b, size as int, a, b);
    assert(a * size + b < size * size) by (nonlinear_arith)
        requires
            0 <= a < size,
            0 <= b < size,
    ;
    assert(b * size + a < size * size) by (nonlinear_arith)
        requires
            0 <= a < size,
            0 <= b < size,
    ;
    assert(0 <= b * size) by (nonlinear_arith)
        requires
            0 <= b,
    ;
}

/// Exchanging the axes twice gives the canvas back: the scorer's input holds
/// every canvas byte exactly once, so the canvas can be rebuilt from it.
pub proof fn lemma_layout_round_trip(canvas: Seq<u8>, size: nat)
    requires
        canvas.len() == size * size * 3,
    ensures
        transposed(transposed(canvas, size), size) == canvas,
{
    let once = transposed(canvas, size);
    let twice = transposed(once, size);
    assert forall|i: int| 0 <= i < canvas.len() implies #[trigger] twice[i] == canvas[i] by {
        assert(size > 0) by (nonlinear_arith)
            requires
                0 <= i < size * size * 3,
        ;
        lemma_byte_position(i, size);
        let a = row_of(i, size);
        let b = column_of(i, size);
        let c = i % 3;
        assert(a < size) by {
            if a >= size {
                assert(a * size + b >= size * size) by (nonlinear_arith)
                    requires
                        a >= size,
                        b >= 0,
                ;
            }
        }
        lemma_cell_index(b, a, c, size);
    }
    assert(twice =~= canvas);
}

/// Lays a `size × size` RGB canvas out in the scorer's axis order. A canvas
/// of any other byte count is refused with `ShapeError`, never cut or padded.
pub fn to_scorer_layout(canvas: &Vec<u8>, size: u32) -> (r: Result<Vec<u8>, PipelineError>)
    ensures
        r is Ok <==> canvas@.len() == size as nat * size as nat * 3,
        r is Err ==> r == Err::<Vec<u8>, _>(PipelineError::ShapeError),
        r matches Ok(v) ==> v@ == transposed(canvas@, size as nat),
{
    assert((size as u128) * (size as u128) * 3 <= u128::MAX) by (nonlinear_arith)
        requires
            size <= u32::MAX,
    ;
    let n: usize = canvas.len();
    if n as u128 != (size as u128) * (size as u128) * 3 {
        return Err(PipelineError::ShapeError);
    }
    let s: usize = size as usize;
    let ghost sn = size as nat;
    let ghost want = transposed(canvas@, sn);
    let mut out: Vec<u8> = Vec::new();
    let mut a: usize = 0;
    while a < s
        invariant
            s == sn,
            canvas@.len() == sn * sn * 3,
            n == canvas@.len(),
            want == transposed(canvas@, sn),
            a <= s,
            out@.len() == a * sn * 3,
            forall|k: int| 0 <= k < out@.len() ==> out@[k] == #[trigger] want[k],
        decreases s - a,
    {
        let mut b: usize = 0;
        while b < s
            invariant
                s == sn,
                canvas@.len() == sn * sn * 3,
                n == canvas@.len(),
                want == transposed(canvas@, sn),
                a < s,
                b <= s,
                out@.len() == (a * sn + b) * 3,
                forall|k: int| 0 <= k < out@.len() ==> out@[k] == #[trigger] want[k],
            decreases s - b,
        {
            proof {
                lemma_cell_index(a as int, b as int, 0, sn);
                lemma_cell_index(a as int, b as int, 1, sn);
                lemma_cell_index(a as int, b as int, 2, sn);
            }
            let base: usize = (b * s + a) * 3;
            out.push(canvas[base]);
            out.push(canvas[base + 1]);
            out.push(canvas[base + 2]);
            b = b + 1;
            assert(out@.len() == (a * sn + b) * 3) by (nonlinear_arith)
                requires
                    out@.len() == (a * sn + (b - 1)) * 3 + 3,
            ;
        }
        a = a + 1;
        assert(out@.len() == a * sn * 3) by (nonlinear_arith)
            requires
                out@.len() == ((a - 1) * sn + sn) * 3,
        ;
    }
    assert(out@ =~= want);
    Ok(out)
}

} // verus!
