//! The two data-layout transforms of the commit phase and the
//! degree-respecting projection that folds one layer into the next.
//!
//! An evaluation vector of length `len` is kept transposed as `len /
//! folding_factor` rows of `folding_factor` elements each: row `i` gathers
//! the elements at positions `i, i + rows, i + 2 * rows, ...` of the natural
//! order, so one Merkle leaf covers the values that must be opened together
//! for one folding step. The remainder is turned back into natural order
//! before it enters the proof.

use vstd::prelude::*;
use winter_math::fields::f64::BaseElement;

use crate::field::{
    elem_is_zero, elem_mul, elem_mul_of, eval_of, get_inv_twiddles, get_root_of_unity, interp_of,
    interpolate_row, inv_twiddles_of, poly_eval, root_of_unity_of,
};
use crate::nums::{
    lemma_div_mod_range, lemma_div_mod_split, lemma_pow2_div, log2_exec, spec_is_pow2, spec_log2,
};

verus! {

/// Row `i` of a transposed buffer with rows of width `ff`.
pub open spec fn row_of(t: Seq<BaseElement>, ff: nat, i: int) -> Seq<BaseElement> {
    t.subrange(i * ff as int, i * ff as int + ff as int)
}

/// The stride transposition: element `k` of the result is the element of `v`
/// at position `k / ff + (k % ff) * rows`, so row `i` of the result gathers
/// the elements of `v` spaced `rows` apart starting at `i`.
pub open spec fn transpose_spec(v: Seq<BaseElement>, ff: nat) -> Seq<BaseElement> {
    let rows = (v.len() / ff) as int;
    Seq::new(v.len(), |k: int| v[k / (ff as int) + (k % (ff as int)) * rows])
}

/// The inverse reordering: the value at transposed index `i * ff + j` is
/// placed at natural index `i + n * j`, for `n = v.len() / ff`.
pub open spec fn untranspose_spec(v: Seq<BaseElement>, ff: nat) -> Seq<BaseElement> {
    let n = (v.len() / ff) as int;
    Seq::new(v.len(), |k: int| v[(k % n) * (ff as int) + k / n])
}

/// Reshapes an evaluation vector into transposed order.
pub fn transpose(v: &Vec<BaseElement>, folding_factor: usize) -> (r: Vec<BaseElement>)
    requires
        1 <= folding_factor,
        v@.len() % folding_factor as nat == 0,
    ensures
        r@ == transpose_spec(v@, folding_factor as nat),
        r@.len() == v@.len(),
{
    let ff = folding_factor;
    let rows = v.len() / ff;
    proof {
        lemma_div_mod_range(v@.len() as int, ff as int);
    }
    let mut r: Vec<BaseElement> = Vec::new();
    let mut i: usize = 0;
    while i < rows
        invariant
            1 <= ff,
            i <= rows,
            rows == v@.len() / ff as nat,
            rows as int * ff as int == v@.len(),
            v@.len() <= usize::MAX,
            r@.len() == i * ff as int,
            forall|k: int|
                0 <= k < r@.len() ==> r@[k] == v@[k / (ff as int) + (k % (ff as int)) * (
                rows as int)],
        decreases rows - i,
    {
        let mut j: usize = 0;
        while j < ff
            invariant
                1 <= ff,
                i < rows,
                j <= ff,
                rows as int * ff as int == v@.len(),
                v@.len() <= usize::MAX,
                r@.len() == i * ff as int + j,
                forall|k: int|
                    0 <= k < r@.len() ==> r@[k] == v@[k / (ff as int) + (k % (ff as int)) * (
                    rows as int)],
            decreases ff - j,
        {
            proof {
                assert(i + j * rows < v@.len()) by (nonlinear_arith)
                    requires
                        i < rows,
                        j < ff,
                        rows as int * ff as int == v@.len(),
                ;
                assert(i * ff as int + j < v@.len()) by (nonlinear_arith)
                    requires
                        i < rows,
                        j < ff,
                        1 <= ff,
                        rows as int * ff as int == v@.len(),
                ;
            }
            let ghost k0 = r@.len() as int;
            r.push(v[i + j * rows]);
            proof {
                lemma_div_mod_split(k0, ff as int, i as int, j as int);
            }
            j = j + 1;
        }
        proof {
            assert((i + 1) * ff as int == i * ff as int + ff as int) by (nonlinear_arith);
        }
        i = i + 1;
    }
    proof {
        assert(r@ =~= transpose_spec(v@, ff as nat));
    }
    r
}

/// Puts a transposed buffer back into natural order.
pub fn untranspose(v: &Vec<BaseElement>, folding_factor: usize) -> (r: Vec<BaseElement>)
    requires
        1 <= folding_factor,
        v@.len() % folding_factor as nat == 0,
    ensures
        r@ == untranspose_spec(v@, folding_factor as nat),
        r@.len() == v@.len(),
{
    let ff = folding_factor;
    let n = v.len() / ff;
    proof {
        lemma_div_mod_range(v@.len() as int, ff as int);
    }
    let mut r: Vec<BaseElement> = Vec::new();
    let mut k: usize = 0;
    while k < v.len()
        invariant
            1 <= ff,
            k <= v@.len(),
            n == v@.len() / ff as nat,
            n as int * ff as int == v@.len(),
            v@.len() <= usize::MAX,
            r@.len() == k,
            forall|q: int|
                0 <= q < k ==> r@[q] == v@[(q % (n as int)) * (ff as int) + q / (n as int)],
        decreases v@.len() - k,
    {
        proof {
            assert(n >= 1) by (nonlinear_arith)
                requires
                    n as int * ff as int == v@.len(),
                    v@.len() > k >= 0,
                    1 <= ff,
            ;
            lemma_div_mod_range(k as int, n as int);
            assert((k as int) / (n as int) < (ff as int)) by (nonlinear_arith)
                requires
                    k < v@.len(),
                    (n as int) * (ff as int) == v@.len(),
                    1 <= n,
                    (n as int) * ((k as int) / (n as int)) + (k as int) % (n as int) == k,
                    0 <= (k as int) % (n as int),
            ;
            assert(((k as int) % (n as int)) * (ff as int) + (k as int) / (n as int) < v@.len())
                by (nonlinear_arith)
                requires
                    0 <= (k as int) % (n as int) < n,
                    0 <= (k as int) / (n as int) < ff,
                    (n as int) * (ff as int) == v@.len(),
            ;
        }
        r.push(v[(k % n) * ff + k / n]);
        k = k + 1;
    }
    proof {
        assert(r@ =~= untranspose_spec(v@, ff as nat));
    }
    r
}

/// Un-transposition is a true inverse of the commit-time transposition: for
/// every evaluation vector whose length the folding factor divides, folding
/// into transposed rows and then un-transposing reproduces the original
/// ordering.
pub proof fn lemma_untranspose_inverts_transpose(v: Seq<BaseElement>, ff: nat)
    requires
        1 <= ff,
        v.len() % ff == 0,
    ensures
        untranspose_spec(transpose_spec(v, ff), ff) == v,
{
    let t = transpose_spec(v, ff);
    let u = untranspose_spec(t, ff);
    let ffi = ff as int;
    let n = (v.len() / ff) as int;
    lemma_div_mod_range(v.len() as int, ffi);
    assert(n * ffi == v.len());
    assert forall|k: int| 0 <= k < v.len() implies u[k] == v[k] by {
        assert(n >= 1) by (nonlinear_arith)
            requires
                n * ffi == v.len(),
                v.len() > 0,
                ffi >= 1,
        ;
        lemma_div_mod_range(k, n);
        let i = k % n;
        let j = k / n;
        assert(j < ffi) by (nonlinear_arith)
            requires
                k < n * ffi,
                1 <= n,
                n * j + i == k,
                0 <= i,
        ;
        let m = i * ffi + j;
        assert(0 <= m < v.len()) by (nonlinear_arith)
            requires
                0 <= i < n,
                0 <= j < ffi,
                n * ffi == v.len(),
                m == i * ffi + j,
        ;
        assert(u[k] == t[m]);
        lemma_div_mod_split(m, ffi, i, j);
        assert(t[m] == v[m / ffi + (m % ffi) * n]);
        assert(i + j * n == k) by {
            assert(n * j + i == k);
        }
    }
    assert(u =~= v);
}

/// Copies row `i` out of a transposed buffer.
pub fn row_at(t: &Vec<BaseElement>, folding_factor: usize, i: usize) -> (r: Vec<BaseElement>)
    requires
        1 <= folding_factor,
        (i as int + 1) * (folding_factor as int) <= t@.len(),
        t@.len() <= usize::MAX,
    ensures
        r@ == row_of(t@, folding_factor as nat, i as int),
{
    let ff = folding_factor;
    proof {
        assert((i as int) * (ff as int) + ff as int <= t@.len()) by (nonlinear_arith)
            requires
                (i as int + 1) * (ff as int) <= t@.len(),
        ;
    }
    let mut row: Vec<BaseElement> = Vec::new();
    let mut j: usize = 0;
    while j < ff
        invariant
            j <= ff,
            (i as int) * (ff as int) + ff as int <= t@.len(),
            t@.len() <= usize::MAX,
            row@.len() == j,
            forall|p: int| 0 <= p < j ==> row@[p] == t@[i * ff as int + p],
        decreases ff - j,
    {
        row.push(t[i * ff + j]);
        j = j + 1;
    }
    proof {
        assert(row@ =~= row_of(t@, ff as nat, i as int));
    }
    row
}

/// The offset of coset row `i`: the domain offset times the `i`-th power of
/// the domain generator.
pub open spec fn row_offset_at(offset: BaseElement, w: BaseElement, i: nat) -> BaseElement
    decreases i,
{
    if i == 0 {
        offset
    } else {
        elem_mul_of(row_offset_at(offset, w, (i - 1) as nat), w)
    }
}

/// What the degree-respecting projection returns: one element per transposed
/// row, the interpolation of that row over its coset evaluated at the
/// challenge.
pub open spec fn drp_spec(
    t: Seq<BaseElement>,
    ff: nat,
    twid: Seq<BaseElement>,
    offset: BaseElement,
    w: BaseElement,
    alpha: BaseElement,
) -> Seq<BaseElement> {
    Seq::new(
        t.len() / ff,
        |i: int| eval_of(interp_of(row_of(t, ff, i), twid, row_offset_at(offset, w, i as nat)), alpha),
    )
}

/// Applies the degree-respecting projection to a transposed evaluation
/// buffer: each row of `folding_factor` values over one coset is interpolated
/// into a polynomial and evaluated at the challenge `alpha`, producing an
/// evaluation vector one `folding_factor` smaller.
pub fn apply_drp(
    t: &Vec<BaseElement>,
    folding_factor: usize,
    domain_offset: BaseElement,
    alpha: BaseElement,
) -> (r: Vec<BaseElement>)
    requires
        2 <= folding_factor < 0x1_0000_0000,
        spec_is_pow2(folding_factor as nat),
        spec_is_pow2(t@.len()),
        folding_factor as nat <= t@.len(),
        t@.len() <= 0x1_0000_0000,
        !elem_is_zero(domain_offset),
    ensures
        r@ == drp_spec(
            t@,
            folding_factor as nat,
            inv_twiddles_of(folding_factor),
            domain_offset,
            root_of_unity_of(spec_log2(t@.len()) as u32),
            alpha,
        ),
        r@.len() == t@.len() / folding_factor as nat,
{
    let ff = folding_factor;
    proof {
        lemma_pow2_div(t@.len(), ff as nat);
        assert(spec_is_pow2(2)) by {
            reveal_with_fuel(spec_is_pow2, 3);
        }
        lemma_pow2_div(ff as nat, 2);
    }
    let rows = t.len() / ff;
    let twid = get_inv_twiddles(ff);
    let lg = log2_exec(t.len());
    let w = get_root_of_unity(lg);
    proof {
        assert(lg == spec_log2(t@.len()) as u32);
    }
    let mut r: Vec<BaseElement> = Vec::new();
    let mut cur = domain_offset;
    let mut i: usize = 0;
    while i < rows
        invariant
            2 <= ff < 0x1_0000_0000,
            spec_is_pow2(ff as nat),
            i <= rows,
            rows as int * ff as int == t@.len(),
            t@.len() <= 0x1_0000_0000,
            t@.len() <= usize::MAX,
            twid@ == inv_twiddles_of(ff),
            twid@.len() * 2 == ff,
            w == root_of_unity_of(spec_log2(t@.len()) as u32),
            !elem_is_zero(w),
            !elem_is_zero(cur),
            cur == row_offset_at(domain_offset, w, i as nat),
            r@.len() == i,
            forall|q: int|
                0 <= q < i ==> r@[q] == eval_of(
                    interp_of(
                        row_of(t@, ff as nat, q),
                        inv_twiddles_of(ff),
                        row_offset_at(domain_offset, w, q as nat),
                    ),
                    alpha,
                ),
        decreases rows - i,
    {
        let mut row: Vec<BaseElement> = Vec::new();
        let mut j: usize = 0;
        while j < ff
            invariant
                j <= ff,
                i < rows,
                rows as int * ff as int == t@.len(),
                t@.len() <= usize::MAX,
                row@.len() == j,
                forall|p: int| 0 <= p < j ==> row@[p] == t@[i * ff as int + p],
            decreases ff - j,
        {
            proof {
                assert(i * ff as int + j < t@.len()) by (nonlinear_arith)
                    requires
                        i < rows,
                        j < ff,
                        rows as int * ff as int == t@.len(),
                ;
            }
            row.push(t[i * ff + j]);
            j = j + 1;
        }
        proof {
            assert(i * ff as int + ff as int <= t@.len()) by (nonlinear_arith)
                requires
                    i < rows,
                    rows as int * ff as int == t@.len(),
            ;
            assert(row@ =~= row_of(t@, ff as nat, i as int));
        }
        let coeffs = interpolate_row(row, &twid, cur);
        let val = poly_eval(&coeffs, alpha);
        r.push(val);
        cur = elem_mul(cur, w);
        i = i + 1;
    }
    proof {
        assert(r@ =~= drp_spec(
            t@,
            ff as nat,
            inv_twiddles_of(ff),
            domain_offset,
            root_of_unity_of(spec_log2(t@.len()) as u32),
            alpha,
        ));
    }
    r
}

} // verus!
