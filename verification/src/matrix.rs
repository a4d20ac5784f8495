//! Dense matrices over GF(2^8).
//!
//! The module provides the systematic Reed-Solomon parity matrix, the
//! recovery matrix built from surviving positions, matrix-vector products
//! over X-byte chunks, and in-place Gaussian elimination.  The elimination
//! contract is exact: whenever it succeeds, the right-hand side is left
//! holding every solution of the original system, so a caller that knows a
//! solution exists gets that solution back, bit for bit.

use vstd::prelude::*;

verus! {

use crate::galois;
use crate::galois::{
    GfTables, gf_add, gf_mul, gf_pow, lemma_inverse, lemma_mul_assoc, lemma_mul_comm,
    lemma_mul_distrib, lemma_mul_one,
};
use crate::Error;

/// The rows of a vector of byte vectors, as a sequence of sequences.
pub open spec fn grid(v: Vec<Vec<u8>>) -> Seq<Seq<u8>> {
    Seq::new(v@.len() as nat, |i: int| v@[i]@)
}

/// `g` has exactly `rows` rows of exactly `cols` bytes each.
pub open spec fn grid_wf(g: Seq<Seq<u8>>, rows: int, cols: int) -> bool {
    &&& g.len() == rows
    &&& forall|i: int| 0 <= i < rows ==> (#[trigger] g[i]).len() == cols
}

/// Column `p` of a sequence of chunks: the bytes at offset `p` of each chunk.
pub open spec fn col(v: Seq<Seq<u8>>, p: int) -> Seq<u8> {
    Seq::new(v.len() as nat, |n: int| v[n][p])
}

/// The tail of a dot product over GF(2^8), starting at position `lo`.
pub open spec fn dot_from(t: GfTables, row: Seq<u8>, vals: Seq<u8>, lo: nat) -> u8
    decreases row.len() - lo,
{
    if lo >= row.len() {
        0
    } else {
        gf_add(gf_mul(t, row[lo as int], vals[lo as int]), dot_from(t, row, vals, lo + 1))
    }
}

/// Dot product of two equally long byte vectors over GF(2^8).
pub open spec fn dot(t: GfTables, row: Seq<u8>, vals: Seq<u8>) -> u8 {
    dot_from(t, row, vals, 0)
}

/// `sol` solves the linear system `mat * sol == rhs`, componentwise over
/// chunks of width `x`.
pub open spec fn solves(
    t: GfTables,
    mat: Seq<Seq<u8>>,
    sol: Seq<Seq<u8>>,
    rhs: Seq<Seq<u8>>,
    x: int,
) -> bool {
    forall|m: int, p: int|
        0 <= m < mat.len() && 0 <= p < x ==> #[trigger] dot(t, mat[m], col(sol, p)) == rhs[m][p]
}

/// Componentwise sum of two byte vectors.
pub open spec fn xor_seq(a: Seq<u8>, b: Seq<u8>) -> Seq<u8> {
    Seq::new(a.len() as nat, |i: int| gf_add(a[i], b[i]))
}

/// A byte vector scaled by a field element.
pub open spec fn scale_seq(t: GfTables, s: u8, r: Seq<u8>) -> Seq<u8> {
    Seq::new(r.len() as nat, |i: int| gf_mul(t, s, r[i]))
}

/// The row with a one in position `i` and zeroes elsewhere.
pub open spec fn unit_row(n: int, i: int) -> Seq<u8> {
    Seq::new(n as nat, |j: int| if j == i { 1u8 } else { 0u8 })
}

/// Adding a scaled row to another row adds the scaled dot product.
pub proof fn lemma_dot_from_elim(
    t: GfTables,
    r1: Seq<u8>,
    r2: Seq<u8>,
    s: u8,
    vals: Seq<u8>,
    lo: nat,
)
    requires
        t.wf(),
        r1.len() == r2.len(),
        r2.len() == vals.len(),
    ensures
        dot_from(t, xor_seq(r1, scale_seq(t, s, r2)), vals, lo) == gf_add(
            dot_from(t, r1, vals, lo),
            gf_mul(t, s, dot_from(t, r2, vals, lo)),
        ),
    decreases r1.len() - lo,
{
    let rx = xor_seq(r1, scale_seq(t, s, r2));
    if lo >= r1.len() {
        assert(gf_mul(t, s, 0) == 0);
        assert(gf_add(0, 0) == 0) by (bit_vector);
    } else {
        lemma_dot_from_elim(t, r1, r2, s, vals, lo + 1);
        let a1 = r1[lo as int];
        let a2 = r2[lo as int];
        let v = vals[lo as int];
        let t1 = dot_from(t, r1, vals, lo + 1);
        let t2 = dot_from(t, r2, vals, lo + 1);
        assert(rx[lo as int] == gf_add(a1, gf_mul(t, s, a2)));
        lemma_mul_distrib(t, v, a1, gf_mul(t, s, a2));
        lemma_mul_comm(t, gf_add(a1, gf_mul(t, s, a2)), v);
        lemma_mul_comm(t, a1, v);
        lemma_mul_comm(t, gf_mul(t, s, a2), v);
        lemma_mul_assoc(t, s, a2, v);
        // head of the mixed row splits into the two heads
        assert(gf_mul(t, rx[lo as int], v) == gf_add(
            gf_mul(t, a1, v),
            gf_mul(t, s, gf_mul(t, a2, v)),
        ));
        lemma_mul_distrib(t, s, gf_mul(t, a2, v), t2);
        let h1 = gf_mul(t, a1, v);
        let h2 = gf_mul(t, s, gf_mul(t, a2, v));
        let st2 = gf_mul(t, s, t2);
        assert(((h1 ^ h2) ^ (t1 ^ st2)) == ((h1 ^ t1) ^ (h2 ^ st2))) by (bit_vector);
    }
}

/// Scaling a row scales its dot product.
pub proof fn lemma_dot_from_scale(t: GfTables, s: u8, row: Seq<u8>, vals: Seq<u8>, lo: nat)
    requires
        t.wf(),
        row.len() == vals.len(),
    ensures
        dot_from(t, scale_seq(t, s, row), vals, lo) == gf_mul(t, s, dot_from(t, row, vals, lo)),
    decreases row.len() - lo,
{
    if lo >= row.len() {
        assert(gf_mul(t, s, 0) == 0);
    } else {
        lemma_dot_from_scale(t, s, row, vals, lo + 1);
        let a = row[lo as int];
        let v = vals[lo as int];
        let tl = dot_from(t, row, vals, lo + 1);
        lemma_mul_comm(t, gf_mul(t, s, a), v);
        lemma_mul_comm(t, a, v);
        lemma_mul_assoc(t, s, a, v);
        lemma_mul_comm(t, s, gf_mul(t, a, v));
        lemma_mul_comm(t, gf_mul(t, a, v), s);
        lemma_mul_distrib(t, s, gf_mul(t, a, v), tl);
    }
}

/// A run of zeroes in the row contributes nothing to the dot product.
pub proof fn lemma_dot_from_zeros(t: GfTables, row: Seq<u8>, vals: Seq<u8>, lo: nat, hi: nat)
    requires
        lo <= hi <= row.len(),
        forall|j: int| lo <= j < hi ==> row[j] == 0,
    ensures
        dot_from(t, row, vals, lo) == dot_from(t, row, vals, hi),
    decreases hi - lo,
{
    if lo < hi {
        lemma_dot_from_zeros(t, row, vals, lo + 1, hi);
        let tl = dot_from(t, row, vals, lo + 1);
        assert(gf_mul(t, 0u8, vals[lo as int]) == 0);
        assert((0u8 ^ tl) == tl) by (bit_vector);
    }
}

/// A dot product against all-zero values is zero.
pub proof fn lemma_dot_from_zero_vals(t: GfTables, row: Seq<u8>, vals: Seq<u8>, lo: nat)
    requires
        row.len() <= vals.len(),
        forall|j: int| 0 <= j < vals.len() ==> (#[trigger] vals[j]) == 0,
    ensures
        dot_from(t, row, vals, lo) == 0,
    decreases row.len() - lo,
{
    if lo < row.len() {
        lemma_dot_from_zero_vals(t, row, vals, lo + 1);
        assert(vals[lo as int] == 0);
        assert(gf_mul(t, row[lo as int], 0u8) == 0);
        assert((0u8 ^ 0u8) == 0u8) by (bit_vector);
    }
}

/// Changing one component of the values changes the dot product by the
/// row coefficient times the difference.
pub proof fn lemma_dot_from_update(
    t: GfTables,
    row: Seq<u8>,
    vals: Seq<u8>,
    i: int,
    v: u8,
    lo: nat,
)
    requires
        t.wf(),
        row.len() == vals.len(),
        0 <= i < vals.len(),
    ensures
        dot_from(t, row, vals.update(i, v), lo) == if lo <= i {
            gf_add(dot_from(t, row, vals, lo), gf_mul(t, row[i], gf_add(v, vals[i])))
        } else {
            dot_from(t, row, vals, lo)
        },
    decreases row.len() - lo,
{
    let vals2 = vals.update(i, v);
    if lo >= row.len() {
    } else {
        lemma_dot_from_update(t, row, vals, i, v, lo + 1);
        let h_old = gf_mul(t, row[lo as int], vals[lo as int]);
        let t_old = dot_from(t, row, vals, lo + 1);
        let t_new = dot_from(t, row, vals2, lo + 1);
        let delta = gf_mul(t, row[i], gf_add(v, vals[i]));
        if lo as int == i {
            assert(vals2[lo as int] == v);
            assert(t_new == t_old);
            let h_new = gf_mul(t, row[lo as int], v);
            lemma_mul_distrib(t, row[i], v, vals[i]);
            let a = gf_mul(t, row[i], v);
            let b = gf_mul(t, row[i], vals[i]);
            assert((a ^ t_old) == ((b ^ t_old) ^ (a ^ b))) by (bit_vector);
        } else if lo < i {
            assert(vals2[lo as int] == vals[lo as int]);
            assert(t_new == gf_add(t_old, delta));
            let h = h_old;
            let d2 = delta;
            assert((h ^ (t_old ^ d2)) == ((h ^ t_old) ^ d2)) by (bit_vector);
        } else {
            assert(vals2[lo as int] == vals[lo as int]);
            assert(t_new == t_old);
        }
    }
}

/// Componentwise sum of two byte vectors.
pub fn xor_rows(a: &Vec<u8>, b: &Vec<u8>) -> (r: Vec<u8>)
    requires
        a@.len() == b@.len(),
    ensures
        r@ == xor_seq(a@, b@),
{
    let mut r: Vec<u8> = Vec::new();
    let mut i: usize = 0;
    while i < a.len()
        invariant
            i <= a@.len(),
            a@.len() == b@.len(),
            r@.len() == i,
            forall|k: int| 0 <= k < i ==> r@[k] == gf_add(a@[k], b@[k]),
        decreases a@.len() - i,
    {
        r.push(a[i] ^ b[i]);
        i += 1;
    }
    proof {
        assert(r@ =~= xor_seq(a@, b@));
    }
    r
}

/// The dot product with a unit row picks out one component.
pub proof fn lemma_dot_unit(t: GfTables, n: int, i: int, vals: Seq<u8>)
    requires
        t.bijective(),
        0 <= i < n,
        vals.len() == n,
    ensures
        dot(t, unit_row(n, i), vals) == vals[i],
{
    let row = unit_row(n, i);
    lemma_dot_from_zeros(t, row, vals, 0, i as nat);
    lemma_dot_from_zeros(t, row, vals, (i + 1) as nat, n as nat);
    lemma_mul_one(t, vals[i]);
    lemma_mul_comm(t, 1u8, vals[i]);
    let tl = dot_from(t, row, vals, (i + 1) as nat);
    assert(dot_from(t, row, vals, i as nat) == gf_add(vals[i], tl));
    let v = vals[i];
    assert((v ^ 0u8) == v) by (bit_vector);
}

/// Copy a byte vector.
pub fn copy_row(src: &Vec<u8>) -> (r: Vec<u8>)
    ensures
        r@ == src@,
{
    let mut r: Vec<u8> = Vec::new();
    let mut i: usize = 0;
    while i < src.len()
        invariant
            i <= src@.len(),
            r@ == src@.take(i as int),
        decreases src@.len() - i,
    {
        r.push(src[i]);
        proof {
            assert(r@ =~= src@.take(i + 1));
        }
        i += 1;
    }
    proof {
        assert(r@ =~= src@);
    }
    r
}

/// An all-zero chunk of `x` bytes.
pub fn zero_chunk(x: usize) -> (r: Vec<u8>)
    ensures
        r@.len() == x,
        forall|p: int| 0 <= p < x ==> r@[p] == 0,
{
    let mut r: Vec<u8> = Vec::new();
    let mut i: usize = 0;
    while i < x
        invariant
            i <= x,
            r@.len() == i,
            forall|p: int| 0 <= p < i ==> r@[p] == 0,
        decreases x - i,
    {
        r.push(0);
        i += 1;
    }
    r
}

/// In place, add `s` times `src` to `dst`, componentwise.
pub fn row_xor_scale(t: &GfTables, dst: &mut Vec<u8>, src: &Vec<u8>, s: u8)
    requires
        t.wf(),
        old(dst)@.len() == src@.len(),
    ensures
        final(dst)@ == xor_seq(old(dst)@, scale_seq(*t, s, src@)),
{
    let n = dst.len();
    let mut i: usize = 0;
    while i < n
        invariant
            t.wf(),
            i <= n,
            dst@.len() == n,
            src@.len() == n,
            forall|k: int| 0 <= k < i ==> dst@[k] == gf_add(old(dst)@[k], gf_mul(*t, s, src@[k])),
            forall|k: int| i <= k < n ==> dst@[k] == old(dst)@[k],
        decreases n - i,
    {
        let v = galois::mul(t, s, src[i]);
        dst[i] = dst[i] ^ v;
        i += 1;
    }
    proof {
        assert(final(dst)@ =~= xor_seq(old(dst)@, scale_seq(*t, s, src@)));
    }
}

/// In place, scale `dst` by `s`, componentwise.
fn row_scale(t: &GfTables, dst: &mut Vec<u8>, s: u8)
    requires
        t.wf(),
    ensures
        final(dst)@ == scale_seq(*t, s, old(dst)@),
{
    let n = dst.len();
    let mut i: usize = 0;
    while i < n
        invariant
            t.wf(),
            i <= n,
            dst@.len() == n,
            forall|k: int| 0 <= k < i ==> dst@[k] == gf_mul(*t, s, old(dst)@[k]),
            forall|k: int| i <= k < n ==> dst@[k] == old(dst)@[k],
        decreases n - i,
    {
        let v = galois::mul(t, s, dst[i]);
        dst[i] = v;
        i += 1;
    }
    proof {
        assert(final(dst)@ =~= scale_seq(*t, s, old(dst)@));
    }
}

/// Dot product of two byte vectors.
pub fn dot_exec(t: &GfTables, row: &Vec<u8>, vals: &Vec<u8>) -> (r: u8)
    requires
        t.wf(),
        row@.len() == vals@.len(),
    ensures
        r == dot(*t, row@, vals@),
{
    let n = row.len();
    let mut acc: u8 = 0;
    let mut i: usize = 0;
    proof {
        let d = dot(*t, row@, vals@);
        assert((0u8 ^ d) == d) by (bit_vector);
    }
    while i < n
        invariant
            t.wf(),
            i <= n,
            row@.len() == n,
            vals@.len() == n,
            gf_add(acc, dot_from(*t, row@, vals@, i as nat)) == dot(*t, row@, vals@),
        decreases n - i,
    {
        let v = galois::mul(t, row[i], vals[i]);
        proof {
            let a = acc;
            let h = gf_mul(*t, row@[i as int], vals@[i as int]);
            let tl = dot_from(*t, row@, vals@, (i + 1) as nat);
            assert(dot_from(*t, row@, vals@, i as nat) == gf_add(h, tl));
            assert(((a ^ h) ^ tl) == (a ^ (h ^ tl))) by (bit_vector);
        }
        acc = acc ^ v;
        i += 1;
    }
    proof {
        let a = acc;
        assert((a ^ 0u8) == a) by (bit_vector);
    }
    acc
}

/// Set entry `(r, c)` of a grid of rows.
fn set_at(g: &mut Vec<Vec<u8>>, r: usize, c: usize, v: u8)
    requires
        r < old(g)@.len(),
        c < old(g)@[r as int]@.len(),
    ensures
        final(g)@.len() == old(g)@.len(),
        forall|rr: int| 0 <= rr < old(g)@.len() && rr != r ==> final(g)@[rr] == old(g)@[rr],
        final(g)@[r as int]@ == old(g)@[r as int]@.update(c as int, v),
{
    let row = vstd::std_specs::vec::vec_index_mut(g, r);
    row[c] = v;
}

/// One chunk of a matrix-vector product: the dot product of `row` with the
/// chunk vector `vec`, componentwise over the `x` byte positions.
pub fn mul_row_vec(t: &GfTables, row: &Vec<u8>, vec: &Vec<Vec<u8>>, x: usize) -> (r: Vec<u8>)
    requires
        t.wf(),
        grid_wf(grid(*vec), row@.len() as int, x as int),
    ensures
        r@.len() == x,
        forall|p: int| 0 <= p < x ==> r@[p] == dot(*t, row@, col(grid(*vec), p)),
{
    let n = row.len();
    let mut r = zero_chunk(x);
    let mut j: usize = 0;
    proof {
        assert forall|p: int| 0 <= p < x implies gf_add(
            r@[p],
            dot_from(*t, row@, col(grid(*vec), p), 0),
        ) == dot(*t, row@, col(grid(*vec), p)) by {
            let d = dot_from(*t, row@, col(grid(*vec), p), 0);
            assert((0u8 ^ d) == d) by (bit_vector);
        }
    }
    while j < n
        invariant
            t.wf(),
            j <= n,
            row@.len() == n,
            grid_wf(grid(*vec), n as int, x as int),
            r@.len() == x,
            forall|p: int|
                0 <= p < x ==> gf_add(
                    #[trigger] r@[p],
                    dot_from(*t, row@, col(grid(*vec), p), j as nat),
                ) == dot(*t, row@, col(grid(*vec), p)),
        decreases n - j,
    {
        let s = row[j];
        let ghost prev = r@;
        proof {
            assert(grid(*vec)[j as int].len() == x);
        }
        row_xor_scale(t, &mut r, &vec[j], s);
        proof {
            assert forall|p: int| 0 <= p < x implies gf_add(
                #[trigger] r@[p],
                dot_from(*t, row@, col(grid(*vec), p), (j + 1) as nat),
            ) == dot(*t, row@, col(grid(*vec), p)) by {
                let cl = col(grid(*vec), p);
                let h = gf_mul(*t, row@[j as int], cl[j as int]);
                let tl = dot_from(*t, row@, cl, (j + 1) as nat);
                let a = prev[p];
                assert(cl[j as int] == vec@[j as int]@[p]);
                assert(r@[p] == gf_add(a, gf_mul(*t, s, vec@[j as int]@[p])));
                assert(dot_from(*t, row@, cl, j as nat) == gf_add(h, tl));
                assert(((a ^ h) ^ tl) == (a ^ (h ^ tl))) by (bit_vector);
            }
        }
        j += 1;
    }
    proof {
        assert forall|p: int| 0 <= p < x implies r@[p] == dot(*t, row@, col(grid(*vec), p)) by {
            let a = r@[p];
            assert((a ^ 0u8) == a) by (bit_vector);
        }
    }
    r
}

/// Check the defining relation of a candidate systematic parity matrix:
/// `V * A_top == A_bottom` over the Vandermonde base `A[m][n] = m^n`.
#[verifier::rlimit(100)]
fn check_systematic(t: &GfTables, v: &Matrix, c: usize, d: usize) -> (r: bool)
    requires
        t.wf(),
        d >= 1,
        d + c <= 256,
        v.is_shape(c as int, d as int),
    ensures
        r ==> forall|k: int, j: int|
            0 <= k < c && 0 <= j < d ==> #[trigger] dot(*t, v.m()[k], vand_col(*t, d as int, j))
                == gf_pow(*t, (d + k) as u8, j as nat),
{
    let mut k: usize = 0;
    while k < c
        invariant
            t.wf(),
            k <= c,
            d >= 1,
            d + c <= 256,
            v.is_shape(c as int, d as int),
            forall|k2: int, j2: int|
                0 <= k2 < k && 0 <= j2 < d ==> #[trigger] dot(
                    *t,
                    v.m()[k2],
                    vand_col(*t, d as int, j2),
                ) == gf_pow(*t, (d + k2) as u8, j2 as nat),
        decreases c - k,
    {
        let mut j: usize = 0;
        while j < d
            invariant
                t.wf(),
                j <= d,
                k < c,
                d >= 1,
                d + c <= 256,
                v.is_shape(c as int, d as int),
                forall|j2: int|
                    0 <= j2 < j ==> #[trigger] dot(*t, v.m()[k as int], vand_col(*t, d as int, j2))
                        == gf_pow(*t, (d + k) as u8, j2 as nat),
            decreases d - j,
        {
            let a_col = vand_col_exec(t, d, j);
            proof {
                assert(v.m()[k as int].len() == d);
                assert(v.data@[k as int]@.len() == d);
            }
            let lhs = dot_exec(t, &v.data[k], &a_col);
            let rhs = galois::exp(t, (d + k) as u8, j);
            if lhs != rhs {
                return false;
            }
            j += 1;
        }
        proof {
            assert forall|k2: int, j2: int|
                0 <= k2 < k + 1 && 0 <= j2 < d implies #[trigger] dot(
                *t,
                v.m()[k2],
                vand_col(*t, d as int, j2),
            ) == gf_pow(*t, (d + k2) as u8, j2 as nat) by {
                if k2 == k as int {
                    assert(dot(*t, v.m()[k as int], vand_col(*t, d as int, j2)) == gf_pow(
                        *t,
                        (d + k) as u8,
                        j2 as nat,
                    ));
                }
            }
        }
        k += 1;
    }
    true
}

/// A dense matrix over GF(2^8), stored as rows of bytes.
#[derive(Debug, Clone)]
pub struct Matrix {
    pub data: Vec<Vec<u8>>,
}

impl Matrix {
    /// The rows of the matrix, as sequences of field elements.
    pub open spec fn m(self) -> Seq<Seq<u8>> {
        grid(self.data)
    }

    /// The matrix has exactly `rows` rows of `cols` entries each.
    pub open spec fn is_shape(self, rows: int, cols: int) -> bool {
        grid_wf(self.m(), rows, cols)
    }

    /// The entry at row `r`, column `c`.
    pub open spec fn at(self, r: int, c: int) -> u8 {
        self.m()[r][c]
    }

    /// Matrix-vector product over chunk vectors: row `idx` only.
    pub fn mul_vec_at(&self, t: &GfTables, vec: &Vec<Vec<u8>>, idx: usize, x: usize) -> (r: Vec<
        u8,
    >)
        requires
            t.wf(),
            (idx as int) < self.data@.len(),
            grid_wf(grid(*vec), self.data@[idx as int]@.len() as int, x as int),
        ensures
            r@.len() == x,
            forall|p: int| 0 <= p < x ==> r@[p] == dot(*t, self.m()[idx as int], col(grid(*vec), p)),
    {
        mul_row_vec(t, &self.data[idx], vec, x)
    }

    /// Matrix-vector product over chunk vectors: every row.
    pub fn mul_vec(&self, t: &GfTables, vec: &Vec<Vec<u8>>, x: usize) -> (r: Vec<Vec<u8>>)
        requires
            t.wf(),
            grid_wf(self.m(), self.data@.len() as int, vec@.len() as int),
            grid_wf(grid(*vec), vec@.len() as int, x as int),
        ensures
            grid_wf(grid(r), self.data@.len() as int, x as int),
            forall|k: int, p: int|
                0 <= k < self.data@.len() && 0 <= p < x ==> #[trigger] grid(r)[k][p] == dot(
                    *t,
                    self.m()[k],
                    col(grid(*vec), p),
                ),
    {
        let rows = self.data.len();
        let mut r: Vec<Vec<u8>> = Vec::new();
        let mut k: usize = 0;
        while k < rows
            invariant
                t.wf(),
                k <= rows,
                self.data@.len() == rows,
                grid_wf(self.m(), rows as int, vec@.len() as int),
                grid_wf(grid(*vec), vec@.len() as int, x as int),
                r@.len() == k,
                forall|i: int| 0 <= i < k ==> (#[trigger] r@[i])@.len() == x,
                forall|i: int, p: int|
                    0 <= i < k && 0 <= p < x ==> #[trigger] r@[i]@[p] == dot(
                        *t,
                        self.m()[i],
                        col(grid(*vec), p),
                    ),
            decreases rows - k,
        {
            proof {
                assert(self.m()[k as int].len() == vec@.len());
                assert(self.data@[k as int]@.len() == vec@.len());
            }
            let chunk = mul_row_vec(t, &self.data[k], vec, x);
            r.push(chunk);
            k += 1;
        }
        proof {
            assert forall|i: int| 0 <= i < rows implies (#[trigger] grid(r)[i]).len() == x by {
                assert(grid(r)[i] == r@[i]@);
            }
            assert forall|i: int, p: int| 0 <= i < rows && 0 <= p < x implies #[trigger] grid(
                r,
            )[i][p] == dot(*t, self.m()[i], col(grid(*vec), p)) by {
                assert(grid(r)[i] == r@[i]@);
            }
        }
        r
    }

    /// Build the square system that maps the original data chunks to the
    /// surviving chunks: one identity-selector row for each surviving data
    /// position in `ds`, then one parity row of this matrix for each
    /// surviving parity position in `cs`.
    pub fn recovery_matrix(&self, t: &GfTables, ds: &Vec<usize>, cs: &Vec<usize>) -> (r: Matrix)
        requires
            ds@.len() + cs@.len() <= usize::MAX,
            forall|i: int|
                0 <= i < self.data@.len() ==> (#[trigger] self.data@[i])@.len() == ds@.len()
                    + cs@.len(),
            forall|i: int| 0 <= i < ds@.len() ==> (#[trigger] ds@[i]) < ds@.len() + cs@.len(),
            forall|i: int| 0 <= i < cs@.len() ==> (#[trigger] cs@[i]) < self.data@.len(),
        ensures
            r.is_shape((ds@.len() + cs@.len()) as int, (ds@.len() + cs@.len()) as int),
            forall|i: int|
                0 <= i < ds@.len() ==> #[trigger] r.m()[i] == unit_row(
                    (ds@.len() + cs@.len()) as int,
                    ds@[i] as int,
                ),
            forall|i: int|
                0 <= i < cs@.len() ==> #[trigger] r.m()[ds@.len() + i] == self.m()[cs@[i] as int],
    {
        let n = ds.len() + cs.len();
        let mut data: Vec<Vec<u8>> = Vec::new();
        let mut i: usize = 0;
        while i < ds.len()
            invariant
                i <= ds@.len(),
                data@.len() == i,
                forall|k: int| 0 <= k < ds@.len() ==> (#[trigger] ds@[k]) < n,
                n == ds@.len() + cs@.len(),
                forall|k: int|
                    0 <= k < i ==> (#[trigger] data@[k])@ == unit_row(n as int, ds@[k] as int),
            decreases ds@.len() - i,
        {
            let mut row = zero_chunk(n);
            let d_idx = ds[i];
            row[d_idx] = 1;
            proof {
                assert(row@ =~= unit_row(n as int, ds@[i as int] as int));
            }
            data.push(row);
            i += 1;
        }
        let mut j: usize = 0;
        while j < cs.len()
            invariant
                j <= cs@.len(),
                data@.len() == ds@.len() + j,
                n == ds@.len() + cs@.len(),
                forall|k: int| 0 <= k < cs@.len() ==> (#[trigger] cs@[k]) < self.data@.len(),
                forall|k: int|
                    0 <= k < self.data@.len() ==> (#[trigger] self.data@[k])@.len() == n,
                forall|k: int|
                    0 <= k < ds@.len() ==> (#[trigger] data@[k])@ == unit_row(
                        n as int,
                        ds@[k] as int,
                    ),
                forall|k: int|
                    0 <= k < j ==> (#[trigger] data@[ds@.len() + k])@ == self.data@[cs@[k] as int]@,
            decreases cs@.len() - j,
        {
            let row = copy_row(&self.data[cs[j]]);
            data.push(row);
            j += 1;
        }
        let r = Matrix { data };
        proof {
            assert forall|k: int| 0 <= k < n implies (#[trigger] r.m()[k]).len() == n by {
                assert(r.m()[k] == r.data@[k]@);
                if k < ds@.len() {
                    assert(r.data@[k]@ == unit_row(n as int, ds@[k] as int));
                } else {
                    assert(r.data@[ds@.len() + (k - ds@.len())]@ == self.data@[cs@[k - ds@.len()] as int]@);
                }
            }
            assert forall|k: int| 0 <= k < ds@.len() implies #[trigger] r.m()[k] == unit_row(
                n as int,
                ds@[k] as int,
            ) by {
                assert(r.m()[k] == r.data@[k]@);
            }
            assert forall|k: int| 0 <= k < cs@.len() implies #[trigger] r.m()[ds@.len() + k]
                == self.m()[cs@[k] as int] by {
                assert(r.data@[ds@.len() + k]@ == self.data@[cs@[k] as int]@);
                assert(r.m()[ds@.len() + k] == r.data@[ds@.len() + k]@);
                assert(self.m()[cs@[k] as int] == self.data@[cs@[k] as int]@);
            }
        }
        r
    }
}

/// Replace row `r` of a grid.
fn set_row(g: &mut Vec<Vec<u8>>, r: usize, v: Vec<u8>)
    requires
        r < old(g)@.len(),
    ensures
        final(g)@ == old(g)@.update(r as int, v),
{
    let e = vstd::std_specs::vec::vec_index_mut(g, r);
    *e = v;
}

/// `sol` is a well-formed solution of the original system: `n` chunks of
/// `x` bytes with `om * sol == orh`.
pub open spec fn good_sol(
    t: GfTables,
    om: Seq<Seq<u8>>,
    orh: Seq<Seq<u8>>,
    x: int,
    sol: Seq<Seq<u8>>,
) -> bool {
    grid_wf(sol, om.len() as int, x) && solves(t, om, sol, orh, x)
}

/// The matrix is in unit echelon form up to column `upto`: each processed
/// diagonal entry is one and everything below it is zero.
spec fn echelon(md: Seq<Vec<u8>>, upto: int, n: int) -> bool {
    &&& forall|cc: int, r: int| 0 <= cc < upto && cc < r < n ==> #[trigger] md[r]@[cc] == 0
    &&& forall|cc: int| 0 <= cc < upto ==> #[trigger] md[cc]@[cc] == 1
}

/// Rows `lo..hi` of the current system are still solved by `sol`.
spec fn rows_solve(
    t: GfTables,
    md: Seq<Vec<u8>>,
    rh: Seq<Vec<u8>>,
    lo: int,
    hi: int,
    x: int,
    sol: Seq<Seq<u8>>,
) -> bool {
    forall|r: int, p: int|
        lo <= r < hi && 0 <= p < x ==> #[trigger] dot(t, md[r]@, col(sol, p)) == rh[r]@[p]
}

/// Rows `lo..hi` of the right-hand side hold the solution chunks.
spec fn rows_match(rh: Seq<Vec<u8>>, lo: int, hi: int, x: int, sol: Seq<Seq<u8>>) -> bool {
    forall|r: int, p: int| lo <= r < hi && 0 <= p < x ==> #[trigger] rh[r]@[p] == sol[r][p]
}

/// During back substitution of row `m`: what is left to fold into the row
/// is exactly the tail of its dot product from position `cc` on.
spec fn partial_back(
    t: GfTables,
    md: Seq<Vec<u8>>,
    rh: Seq<Vec<u8>>,
    m: int,
    cc: int,
    x: int,
    sol: Seq<Seq<u8>>,
) -> bool {
    forall|p: int|
        0 <= p < x ==> gf_add(
            rh[m]@[p],
            #[trigger] dot_from(t, md[m]@, col(sol, p), cc as nat),
        ) == sol[m][p]
}

/// Every row of `md` has a zero dot product with `v`.
pub open spec fn all_dots_zero(t: GfTables, md: Seq<Vec<u8>>, v: Seq<u8>) -> bool {
    forall|m: int| 0 <= m < md.len() ==> #[trigger] dot(t, md[m]@, v) == 0
}

/// Every row of the matrix `mat` has a zero dot product with `v`.
pub open spec fn rows_dots_zero(t: GfTables, mat: Seq<Seq<u8>>, v: Seq<u8>) -> bool {
    forall|m: int| 0 <= m < mat.len() ==> #[trigger] dot(t, mat[m], v) == 0
}

/// The matrix has a trivial kernel: only the zero vector has a zero dot
/// product with every row.
pub open spec fn trivial_kernel(t: GfTables, mat: Seq<Seq<u8>>, n: int) -> bool {
    forall|v: Seq<u8>|
        v.len() == n && #[trigger] rows_dots_zero(t, mat, v) ==> (forall|j: int|
            0 <= j < n ==> v[j] == 0)
}

/// A dot product all of whose summands vanish is zero.
proof fn lemma_dot_from_zero_terms(t: GfTables, row: Seq<u8>, vals: Seq<u8>, lo: nat)
    requires
        forall|j: int| lo <= j < row.len() ==> #[trigger] gf_mul(t, row[j], vals[j]) == 0,
    ensures
        dot_from(t, row, vals, lo) == 0,
    decreases row.len() - lo,
{
    if lo < row.len() {
        lemma_dot_from_zero_terms(t, row, vals, lo + 1);
        assert(gf_mul(t, row[lo as int], vals[lo as int]) == 0);
        assert((0u8 ^ 0u8) == 0u8) by (bit_vector);
    }
}

/// One component of the kernel witness for a failed pivot column `pc`:
/// one at `pc`, zero above, and below the value that zeroes the row's dot
/// product against the witness.
spec fn ker_wv(t: GfTables, md: Seq<Vec<u8>>, pc: int, j: int) -> u8
    decreases pc - j, pc - j + 3int,
{
    if j > pc || j < 0 {
        0
    } else if j == pc {
        1
    } else {
        ker_ws(t, md, pc, j, j + 1)
    }
}

/// The partial sum `sum over l in [l0, pc] of md[j][l] * wv(l)`.
spec fn ker_ws(t: GfTables, md: Seq<Vec<u8>>, pc: int, j: int, l: int) -> u8
    decreases pc - j, pc - l + 2int,
{
    if l > pc || l <= j {
        0
    } else {
        gf_add(gf_mul(t, md[j]@[l], ker_wv(t, md, pc, l)), ker_ws(t, md, pc, j, l + 1))
    }
}

/// The kernel witness as a vector of `n` components.
spec fn ker_vec(t: GfTables, md: Seq<Vec<u8>>, pc: int, n: int) -> Seq<u8> {
    Seq::new(n as nat, |j: int| ker_wv(t, md, pc, j))
}

/// The tail of a low row's dot product with the witness equals the
/// witness's defining partial sum.
proof fn lemma_ker_tail(t: GfTables, md: Seq<Vec<u8>>, pc: int, n: int, m: int, l: int)
    requires
        0 <= m < pc < n,
        md.len() == n,
        md[m]@.len() == n,
        m < l <= pc + 1,
    ensures
        dot_from(t, md[m]@, ker_vec(t, md, pc, n), l as nat) == ker_ws(t, md, pc, m, l),
    decreases pc + 1 - l,
{
    let v = ker_vec(t, md, pc, n);
    if l == pc + 1 {
        assert forall|j: int| l <= j < n implies #[trigger] gf_mul(t, md[m]@[j], v[j]) == 0 by {
            assert(v[j] == 0);
        }
        lemma_dot_from_zero_terms(t, md[m]@, v, l as nat);
    } else {
        lemma_ker_tail(t, md, pc, n, m, l + 1);
        assert(v[l] == ker_wv(t, md, pc, l));
    }
}

/// When forward elimination finds no pivot in column `pc`, the witness is
/// a nonzero vector with a zero dot product against every current row.
proof fn lemma_ker_witness(t: GfTables, md: Seq<Vec<u8>>, pc: int, n: int)
    requires
        t.wf(),
        0 <= pc < n,
        md.len() == n,
        forall|i: int| 0 <= i < n ==> (#[trigger] md[i])@.len() == n,
        echelon(md, pc, n),
        forall|r: int| pc <= r < n ==> #[trigger] md[r]@[pc as int] == 0,
    ensures
        ker_vec(t, md, pc, n).len() == n,
        ker_vec(t, md, pc, n)[pc] == 1,
        all_dots_zero(t, md, ker_vec(t, md, pc, n)),
{
    let v = ker_vec(t, md, pc, n);
    assert forall|m: int| 0 <= m < n implies #[trigger] dot(t, md[m]@, v) == 0 by {
        if m >= pc {
            // every summand vanishes: zero entries up to the failed
            // column, zero witness components beyond it
            assert forall|j: int| 0 <= j < n implies #[trigger] gf_mul(t, md[m]@[j], v[j])
                == 0 by {
                if j < pc {
                    assert(md[m]@[j] == 0);
                } else if j == pc {
                    assert(md[m]@[j] == 0);
                } else {
                    assert(v[j] == 0);
                }
            }
            lemma_dot_from_zero_terms(t, md[m]@, v, 0);
        } else {
            // the diagonal one picks out v[m], which by construction
            // cancels the rest of the row's sum
            assert forall|j: int| 0 <= j < m implies md[m]@[j] == 0 by {
                assert(md[m]@[j] == 0);
            }
            lemma_dot_from_zeros(t, md[m]@, v, 0, m as nat);
            lemma_ker_tail(t, md, pc, n, m, m + 1);
            assert(md[m]@[m] == 1);
            assert(v[m] == ker_ws(t, md, pc, m, m + 1));
            let tl = dot_from(t, md[m]@, v, (m + 1) as nat);
            lemma_mul_one(t, v[m]);
            lemma_mul_comm(t, 1u8, v[m]);
            assert(dot_from(t, md[m]@, v, m as nat) == gf_add(v[m], tl));
            let a = v[m];
            assert((a ^ a) == 0u8) by (bit_vector);
        }
    }
}

/// Before back substitution of row `m` starts, what is left to fold in is
/// the tail of the row's dot product after the diagonal.
proof fn lemma_back_init(
    t: GfTables,
    md: Seq<Vec<u8>>,
    rh: Seq<Vec<u8>>,
    m: int,
    n: int,
    x: int,
    sol: Seq<Seq<u8>>,
)
    requires
        t.bijective(),
        0 <= m < n,
        md.len() == n,
        md[m]@.len() == n,
        sol.len() == n,
        forall|j: int| 0 <= j < m ==> md[m]@[j] == 0,
        md[m]@[m] == 1,
        forall|p: int| 0 <= p < x ==> #[trigger] dot(t, md[m]@, col(sol, p)) == rh[m]@[p],
    ensures
        partial_back(t, md, rh, m, m + 1, x, sol),
{
    assert forall|p: int|
        0 <= p < x implies gf_add(
        rh[m]@[p],
        #[trigger] dot_from(t, md[m]@, col(sol, p), (m + 1) as nat),
    ) == sol[m][p] by {
        let rowl = md[m]@;
        let colp = col(sol, p);
        assert(dot(t, md[m]@, col(sol, p)) == rh[m]@[p]);
        lemma_dot_from_zeros(t, rowl, colp, 0, m as nat);
        let v = colp[m];
        lemma_mul_one(t, v);
        lemma_mul_comm(t, 1u8, v);
        let tl = dot_from(t, rowl, colp, (m + 1) as nat);
        assert(dot_from(t, rowl, colp, m as nat) == gf_add(v, tl));
        assert(colp[m] == sol[m][p]);
        let rv = rh[m]@[p];
        assert(rv == (v ^ tl) ==> ((rv ^ tl) == v)) by (bit_vector);
    }
}

/// One step of back substitution on row `m`: folding in the solved chunk of
/// row `cc` advances the remaining tail by one position.
proof fn lemma_back_step(
    t: GfTables,
    md: Seq<Vec<u8>>,
    rh_old: Seq<Vec<u8>>,
    rh_new: Seq<Vec<u8>>,
    m: int,
    cc: int,
    n: int,
    x: int,
    sol: Seq<Seq<u8>>,
)
    requires
        t.wf(),
        0 <= m < cc < n,
        md.len() == n,
        md[m]@.len() == n,
        sol.len() == n,
        rh_old.len() == n,
        rh_old[m]@.len() == x,
        rh_old[cc]@.len() == x,
        rh_new[m]@ == xor_seq(rh_old[m]@, scale_seq(t, md[m]@[cc], rh_old[cc]@)),
        forall|p: int| 0 <= p < x ==> #[trigger] rh_old[cc]@[p] == sol[cc][p],
        partial_back(t, md, rh_old, m, cc, x, sol),
    ensures
        partial_back(t, md, rh_new, m, cc + 1, x, sol),
{
    assert forall|p: int|
        0 <= p < x implies gf_add(
        rh_new[m]@[p],
        #[trigger] dot_from(t, md[m]@, col(sol, p), (cc + 1) as nat),
    ) == sol[m][p] by {
        assert(gf_add(rh_old[m]@[p], #[trigger] dot_from(t, md[m]@, col(sol, p), cc as nat))
            == sol[m][p]);
        assert(dot_from(t, md[m]@, col(sol, p), cc as nat) == gf_add(
            gf_mul(t, md[m]@[cc], col(sol, p)[cc]),
            dot_from(t, md[m]@, col(sol, p), (cc + 1) as nat),
        ));
        assert(col(sol, p)[cc] == sol[cc][p]);
        assert(rh_old[cc]@[p] == sol[cc][p]);
        assert(rh_new[m]@[p] == gf_add(rh_old[m]@[p], gf_mul(t, md[m]@[cc], rh_old[cc]@[p])));
        let old_rv = rh_old[m]@[p];
        let h = gf_mul(t, md[m]@[cc], col(sol, p)[cc]);
        let tl = dot_from(t, md[m]@, col(sol, p), (cc + 1) as nat);
        let g = sol[m][p];
        assert((old_rv ^ (h ^ tl)) == g ==> (((old_rv ^ h) ^ tl) == g)) by (bit_vector);
    }
}

/// When back substitution of row `m` has folded in every position, the row
/// holds the solution chunk.
proof fn lemma_back_done(
    t: GfTables,
    md: Seq<Vec<u8>>,
    rh: Seq<Vec<u8>>,
    m: int,
    n: int,
    x: int,
    sol: Seq<Seq<u8>>,
)
    requires
        0 <= m < n,
        md.len() == n,
        md[m]@.len() == n,
        partial_back(t, md, rh, m, n, x, sol),
    ensures
        forall|p: int| 0 <= p < x ==> #[trigger] rh[m]@[p] == sol[m][p],
{
    assert forall|p: int| 0 <= p < x implies #[trigger] rh[m]@[p] == sol[m][p] by {
        assert(gf_add(rh[m]@[p], dot_from(t, md[m]@, col(sol, p), n as nat)) == sol[m][p]);
        assert(dot_from(t, md[m]@, col(sol, p), n as nat) == 0);
        let v = rh[m]@[p];
        assert((v ^ 0u8) == v) by (bit_vector);
    }
}

/// Column `j` of the top block of the Vandermonde base matrix: the entries
/// `m^j` for the data rows `m` in `0..d`.
pub open spec fn vand_col(t: GfTables, d: int, j: int) -> Seq<u8> {
    Seq::new(d as nat, |m: int| gf_pow(t, m as u8, j as nat))
}

/// Compute column `j` of the top Vandermonde block.
fn vand_col_exec(t: &GfTables, d: usize, j: usize) -> (r: Vec<u8>)
    requires
        t.wf(),
        d <= 256,
    ensures
        r@ == vand_col(*t, d as int, j as int),
        r@.len() == d,
{
    let mut a_col: Vec<u8> = Vec::new();
    let mut n: usize = 0;
    while n < d
        invariant
            t.wf(),
            n <= d,
            d <= 256,
            a_col@.len() == n,
            forall|i: int| 0 <= i < n ==> #[trigger] a_col@[i] == gf_pow(*t, i as u8, j as nat),
        decreases d - n,
    {
        a_col.push(galois::exp(t, n as u8, j));
        n += 1;
    }
    proof {
        assert(a_col@ =~= vand_col(*t, d as int, j as int));
    }
    a_col
}

impl Matrix {
    /// Build the (C x D) systematic Reed-Solomon parity matrix: row-reduce
    /// the (D+C) x D Vandermonde base so its top D x D block becomes the
    /// identity, and keep the bottom C x D block V.  The construction is
    /// validated against its defining relation before it is returned:
    /// `V * A_top == A_bottom`, where `A` is the Vandermonde base with
    /// entries `A[m][n] = m^n`.
    ///
    /// Two clauses are owed beyond this contract and rest on Vandermonde
    /// invertibility, which this library does not prove: `r.is_ok()` (the
    /// base always reduces), and the MDS property of the result (any D
    /// rows of the systematic code matrix are independent) - the latter is
    /// stated as the named hypothesis under which the engines promise
    /// recovery.
    #[verifier::rlimit(100)]
    pub fn reed_solomon(t: &GfTables, c: usize, d: usize) -> (r: Result<Matrix, Error>)
        requires
            t.wf(),
            d >= 1,
            d + c <= 256,
        ensures
            r.is_ok() ==> r.unwrap().is_shape(c as int, d as int),
            r.is_ok() ==> forall|k: int, j: int|
                0 <= k < c && 0 <= j < d ==> #[trigger] dot(
                    *t,
                    r.unwrap().m()[k],
                    vand_col(*t, d as int, j),
                ) == gf_pow(*t, (d + k) as u8, j as nat),
            (r matches Err(e) ==> e == Error::SingularBasis),
    {
        let rows = d + c;
        // Vandermonde base: reed[m][n] = m^n.
        let mut reed: Vec<Vec<u8>> = Vec::new();
        let mut m: usize = 0;
        while m < rows
            invariant
                t.wf(),
                m <= rows,
                reed@.len() == m,
                rows <= 256,
                forall|i: int| 0 <= i < m ==> (#[trigger] reed@[i])@.len() == d,
            decreases rows - m,
        {
            let mut row: Vec<u8> = Vec::new();
            let mut n: usize = 0;
            while n < d
                invariant
                    t.wf(),
                    n <= d,
                    m < 256,
                    row@.len() == n,
                decreases d - n,
            {
                row.push(galois::exp(t, m as u8, n));
                n += 1;
            }
            reed.push(row);
            m += 1;
        }

        // Column-reduce until the top block is the identity.
        let mut idx: usize = 0;
        while idx < d
            invariant
                t.wf(),
                idx <= d,
                1 <= d,
                d + c == rows,
                rows <= 256,
                reed@.len() == rows,
                forall|i: int| 0 <= i < rows ==> (#[trigger] reed@[i])@.len() == d,
            decreases d - idx,
        {
            // Find a row at or below the diagonal with a nonzero pivot entry.
            let mut sel: usize = rows;
            let mut rr: usize = idx;
            while rr < rows
                invariant
                    idx <= rr <= rows,
                    reed@.len() == rows,
                    forall|i: int| 0 <= i < rows ==> (#[trigger] reed@[i])@.len() == d,
                    idx < d,
                    sel == rows || (idx <= sel < rows && reed@[sel as int]@[idx as int] != 0),
                decreases rows - rr,
            {
                if sel == rows && reed[rr][idx] != 0 {
                    sel = rr;
                }
                rr += 1;
            }
            if sel == rows {
                return Err(Error::SingularBasis);
            }
            if sel != idx {
                let row_sel = copy_row(&reed[sel]);
                let row_idx = copy_row(&reed[idx]);
                reed[idx] = row_sel;
                reed[sel] = row_idx;
            }

            // Scale column idx so the diagonal entry becomes one.
            let pivot = reed[idx][idx];
            if pivot != 1 {
                let inv = galois::div(t, 1, pivot);
                let mut r2: usize = 0;
                while r2 < rows
                    invariant
                        t.wf(),
                        r2 <= rows,
                        idx < d,
                        d + c == rows,
                        reed@.len() == rows,
                        forall|i: int| 0 <= i < rows ==> (#[trigger] reed@[i])@.len() == d,
                    decreases rows - r2,
                {
                    let v = galois::mul(t, inv, reed[r2][idx]);
                    set_at(&mut reed, r2, idx, v);
                    r2 += 1;
                }
            }

            // Clear the rest of row idx by column operations.
            let mut c2: usize = 0;
            while c2 < d
                invariant
                    t.wf(),
                    c2 <= d,
                    idx < d,
                    d + c == rows,
                    reed@.len() == rows,
                    forall|i: int| 0 <= i < rows ==> (#[trigger] reed@[i])@.len() == d,
                decreases d - c2,
            {
                if c2 != idx {
                    let s = reed[idx][c2];
                    if s != 0 {
                        let mut r2: usize = 0;
                        while r2 < rows
                            invariant
                                t.wf(),
                                r2 <= rows,
                                idx < d,
                                c2 < d,
                                d + c == rows,
                                reed@.len() == rows,
                                forall|i: int| 0 <= i < rows ==> (#[trigger] reed@[i])@.len() == d,
                            decreases rows - r2,
                        {
                            let v = reed[r2][c2] ^ galois::mul(t, s, reed[r2][idx]);
                            set_at(&mut reed, r2, c2, v);
                            r2 += 1;
                        }
                    }
                }
                c2 += 1;
            }
            idx += 1;
        }

        // The bottom block is the candidate parity matrix.
        let mut vdata: Vec<Vec<u8>> = Vec::new();
        let mut k: usize = 0;
        while k < c
            invariant
                k <= c,
                d + c == rows,
                reed@.len() == rows,
                forall|i: int| 0 <= i < rows ==> (#[trigger] reed@[i])@.len() == d,
                vdata@.len() == k,
                forall|i: int| 0 <= i < k ==> (#[trigger] vdata@[i])@.len() == d,
            decreases c - k,
        {
            let row = copy_row(&reed[d + k]);
            vdata.push(row);
            k += 1;
        }
        let v = Matrix { data: vdata };
        proof {
            assert forall|i: int| 0 <= i < c implies (#[trigger] v.m()[i]).len() == d by {
                assert(v.m()[i] == v.data@[i]@);
            }
        }

        // Validate the defining relation of the systematic code.
        if check_systematic(t, &v, c, d) {
            Ok(v)
        } else {
            Err(Error::SingularBasis)
        }
    }

    /// In-place Gaussian elimination over GF(2^8): forward elimination with
    /// partial pivoting, then back substitution.  `rhs` holds one chunk of
    /// `x` bytes per row.
    ///
    /// On success, `rhs` holds the solution of the original system: every
    /// well-formed solution of `old(self) * sol == old(rhs)` is exactly what
    /// `rhs` now holds.  A caller that knows one solution exists therefore
    /// gets that solution back, and knows it is the only one.  Failure is
    /// possible only on a singular matrix: whenever the matrix has a
    /// trivial kernel, elimination succeeds (each pivot search would
    /// otherwise exhibit a nonzero kernel vector).
    #[verifier::rlimit(100)]
    pub fn gaussian_elimination(&mut self, t: &GfTables, rhs: &mut Vec<Vec<u8>>, x: usize) -> (res:
        Result<(), Error>)
        requires
            t.wf(),
            old(self).is_shape(old(rhs)@.len() as int, old(rhs)@.len() as int),
            old(rhs)@.len() >= 1,
            grid_wf(grid(*old(rhs)), old(rhs)@.len() as int, x as int),
        ensures
            final(self).data@.len() == old(rhs)@.len(),
            final(rhs)@.len() == old(rhs)@.len(),
            forall|i: int| 0 <= i < old(rhs)@.len() ==> (#[trigger] final(rhs)@[i])@.len() == x,
            res.is_ok() ==> forall|sol: Seq<Seq<u8>>|
                #[trigger] good_sol(*t, old(self).m(), grid(*old(rhs)), x as int, sol) ==> grid(
                    *final(rhs),
                ) == sol,
            res.is_err() ==> res.unwrap_err() == Error::SingularMatrix,
            trivial_kernel(*t, old(self).m(), old(rhs)@.len() as int) ==> res.is_ok(),
    {
        let n = rhs.len();
        let ghost om = old(self).m();
        let ghost orh = grid(*old(rhs));
        proof {
            assert forall|i: int| 0 <= i < n implies (#[trigger] self.data@[i])@.len() == n by {
                assert(om[i].len() == n);
                assert(om[i] == self.data@[i]@);
            }
            assert forall|i: int| 0 <= i < n implies (#[trigger] rhs@[i])@.len() == x by {
                assert(orh[i].len() == x);
                assert(orh[i] == rhs@[i]@);
            }
            assert forall|sol: Seq<Seq<u8>>|
                #[trigger] good_sol(*t, om, orh, x as int, sol) implies rows_solve(
                *t,
                self.data@,
                rhs@,
                0,
                n as int,
                x as int,
                sol,
            ) by {
                assert forall|r: int, p: int| 0 <= r < n && 0 <= p < x implies #[trigger] dot(
                    *t,
                    self.data@[r]@,
                    col(sol, p),
                ) == rhs@[r]@[p] by {
                    assert(dot(*t, om[r], col(sol, p)) == orh[r][p]);
                    assert(om[r] == self.data@[r]@);
                    assert(orh[r] == rhs@[r]@);
                }
            }
            assert forall|v: Seq<u8>|
                v.len() == n && #[trigger] all_dots_zero(*t, self.data@, v) implies rows_dots_zero(
                *t,
                om,
                v,
            ) by {
                assert forall|m2: int| 0 <= m2 < n implies #[trigger] dot(*t, om[m2], v) == 0 by {
                    assert(dot(*t, self.data@[m2]@, v) == 0);
                    assert(om[m2] == self.data@[m2]@);
                }
            }
        }

        // Forward elimination, one pivot column at a time.
        let mut pc: usize = 0;
        while pc < n
            invariant
                t.wf(),
                pc <= n,
                n >= 1,
                n == old(rhs)@.len(),
                om == old(self).m(),
                om.len() == n,
                self.data@.len() == n,
                forall|i: int| 0 <= i < n ==> (#[trigger] self.data@[i])@.len() == n,
                rhs@.len() == n,
                forall|i: int| 0 <= i < n ==> (#[trigger] rhs@[i])@.len() == x,
                forall|sol: Seq<Seq<u8>>|
                    #[trigger] good_sol(*t, om, orh, x as int, sol) ==> rows_solve(
                        *t,
                        self.data@,
                        rhs@,
                        0,
                        n as int,
                        x as int,
                        sol,
                    ),
                forall|v: Seq<u8>|
                    v.len() == n && #[trigger] all_dots_zero(*t, self.data@, v)
                        ==> rows_dots_zero(*t, om, v),
                echelon(self.data@, pc as int, n as int),
            decreases n - pc,
        {
            // Find a row at or below the diagonal with a nonzero pivot entry.
            let mut sel: usize = n;
            let mut rr: usize = pc;
            while rr < n
                invariant
                    pc <= rr <= n,
                    pc < n,
                    self.data@.len() == n,
                    forall|i: int| 0 <= i < n ==> (#[trigger] self.data@[i])@.len() == n,
                    sel == n || (pc <= sel < n && self.data@[sel as int]@[pc as int] != 0),
                    forall|r2: int|
                        (sel == n && pc <= r2 < rr) ==> #[trigger] self.data@[r2]@[pc as int]
                            == 0,
                decreases n - rr,
            {
                if sel == n && self.data[rr][pc] != 0 {
                    sel = rr;
                }
                rr += 1;
            }
            if sel == n {
                proof {
                    // a failed pivot column yields a nonzero kernel vector
                    // of the original matrix, so the hypothesis of the
                    // success clause cannot hold here
                    if trivial_kernel(*t, om, n as int) {
                        lemma_ker_witness(*t, self.data@, pc as int, n as int);
                        let v = ker_vec(*t, self.data@, pc as int, n as int);
                        assert(all_dots_zero(*t, self.data@, v));
                        assert(rows_dots_zero(*t, om, v));
                        assert(v[pc as int] == 0);
                        assert(false);
                    }
                }
                return Err(Error::SingularMatrix);
            }

            if sel != pc {
                // Swap rows sel and pc, in the matrix and in the right-hand side.
                let ghost pm = self.data@;
                let ghost pr = rhs@;
                let row_a = copy_row(&self.data[pc]);
                let row_b = copy_row(&self.data[sel]);
                set_row(&mut self.data, pc, row_b);
                set_row(&mut self.data, sel, row_a);
                let rhs_a = copy_row(&rhs[pc]);
                let rhs_b = copy_row(&rhs[sel]);
                set_row(rhs, pc, rhs_b);
                set_row(rhs, sel, rhs_a);
                proof {
                    assert forall|i: int| 0 <= i < n implies (#[trigger] self.data@[i])@.len()
                        == n by {
                        if i == pc as int {
                            assert(self.data@[i]@ == pm[sel as int]@);
                        } else if i == sel as int {
                            assert(self.data@[i]@ == pm[pc as int]@);
                        } else {
                            assert(self.data@[i] == pm[i]);
                        }
                    }
                    assert forall|i: int| 0 <= i < n implies (#[trigger] rhs@[i])@.len() == x by {
                        if i == pc as int {
                            assert(rhs@[i]@ == pr[sel as int]@);
                        } else if i == sel as int {
                            assert(rhs@[i]@ == pr[pc as int]@);
                        } else {
                            assert(rhs@[i] == pr[i]);
                        }
                    }
                    assert forall|sol: Seq<Seq<u8>>|
                        #[trigger] good_sol(*t, om, orh, x as int, sol) implies rows_solve(
                        *t,
                        self.data@,
                        rhs@,
                        0,
                        n as int,
                        x as int,
                        sol,
                    ) by {
                        assert(rows_solve(*t, pm, pr, 0, n as int, x as int, sol));
                        assert forall|r: int, p: int| 0 <= r < n && 0 <= p < x implies #[trigger] dot(
                            *t,
                            self.data@[r]@,
                            col(sol, p),
                        ) == rhs@[r]@[p] by {
                            if r == pc as int {
                                assert(dot(*t, pm[sel as int]@, col(sol, p)) == pr[sel as int]@[p]);
                            } else if r == sel as int {
                                assert(dot(*t, pm[pc as int]@, col(sol, p)) == pr[pc as int]@[p]);
                            } else {
                                assert(dot(*t, pm[r]@, col(sol, p)) == pr[r]@[p]);
                            }
                        }
                    }
                    assert forall|cc: int, r: int| 0 <= cc < pc && cc < r < n implies #[trigger] self.data@[r]@[cc]
                        == 0 by {
                        if r == pc as int {
                            assert(pm[sel as int]@[cc] == 0);
                            assert(self.data@[r]@ == pm[sel as int]@);
                        } else if r == sel as int {
                            assert(pm[pc as int]@[cc] == 0);
                        } else {
                            assert(pm[r]@[cc] == 0);
                        }
                    }
                    assert forall|cc: int| 0 <= cc < pc implies #[trigger] self.data@[cc]@[cc]
                        == 1 by {
                        assert(self.data@[cc] == pm[cc]);
                        assert(pm[cc]@[cc] == 1);
                    }
                    assert(self.data@[pc as int]@[pc as int] == pm[sel as int]@[pc as int]);
                    // swapping rows permutes the dot products, so the
                    // kernel of the current matrix is unchanged
                    assert forall|v: Seq<u8>|
                        v.len() == n && #[trigger] all_dots_zero(*t, self.data@, v) implies rows_dots_zero(
                        *t,
                        om,
                        v,
                    ) by {
                        assert forall|m2: int| 0 <= m2 < n implies #[trigger] dot(*t, pm[m2]@, v)
                            == 0 by {
                            if m2 == pc as int {
                                assert(dot(*t, self.data@[sel as int]@, v) == 0);
                                assert(pm[m2]@ == self.data@[sel as int]@);
                            } else if m2 == sel as int {
                                assert(dot(*t, self.data@[pc as int]@, v) == 0);
                                assert(pm[m2]@ == self.data@[pc as int]@);
                            } else {
                                assert(dot(*t, self.data@[m2]@, v) == 0);
                                assert(pm[m2] == self.data@[m2]);
                            }
                        }
                        assert(all_dots_zero(*t, pm, v));
                    }
                }
            }
            assert(self.data@[pc as int]@[pc as int] != 0);

            // Scale row pc so its diagonal entry becomes one.
            let pivot = self.data[pc][pc];
            if pivot != 1 {
                let inv = galois::div(t, 1, pivot);
                proof {
                    lemma_inverse(*t, pivot);
                }
                let ghost pm = self.data@;
                let ghost pr = rhs@;
                let mut trow = copy_row(&self.data[pc]);
                row_scale(t, &mut trow, inv);
                set_row(&mut self.data, pc, trow);
                let mut trh = copy_row(&rhs[pc]);
                row_scale(t, &mut trh, inv);
                set_row(rhs, pc, trh);
                proof {
                    assert(self.data@[pc as int]@ == scale_seq(*t, inv, pm[pc as int]@));
                    assert(rhs@[pc as int]@ == scale_seq(*t, inv, pr[pc as int]@));
                    assert forall|i: int| 0 <= i < n implies (#[trigger] self.data@[i])@.len()
                        == n by {
                        if i != pc as int {
                            assert(self.data@[i] == pm[i]);
                        }
                    }
                    assert forall|i: int| 0 <= i < n implies (#[trigger] rhs@[i])@.len() == x by {
                        if i != pc as int {
                            assert(rhs@[i] == pr[i]);
                        }
                    }
                    assert forall|sol: Seq<Seq<u8>>|
                        #[trigger] good_sol(*t, om, orh, x as int, sol) implies rows_solve(
                        *t,
                        self.data@,
                        rhs@,
                        0,
                        n as int,
                        x as int,
                        sol,
                    ) by {
                        assert(rows_solve(*t, pm, pr, 0, n as int, x as int, sol));
                        assert forall|r: int, p: int| 0 <= r < n && 0 <= p < x implies #[trigger] dot(
                            *t,
                            self.data@[r]@,
                            col(sol, p),
                        ) == rhs@[r]@[p] by {
                            assert(col(sol, p).len() == n);
                            if r == pc as int {
                                assert(dot(*t, pm[r]@, col(sol, p)) == pr[r]@[p]);
                                lemma_dot_from_scale(*t, inv, pm[r]@, col(sol, p), 0);
                            } else {
                                assert(dot(*t, pm[r]@, col(sol, p)) == pr[r]@[p]);
                            }
                        }
                    }
                    assert forall|cc: int, r: int| 0 <= cc < pc && cc < r < n implies #[trigger] self.data@[r]@[cc]
                        == 0 by {
                        if r == pc as int {
                            assert(pm[r]@[cc] == 0);
                            assert(self.data@[r]@[cc] == gf_mul(*t, inv, pm[r]@[cc]));
                        } else {
                            assert(pm[r]@[cc] == 0);
                        }
                    }
                    assert forall|cc: int| 0 <= cc < pc implies #[trigger] self.data@[cc]@[cc]
                        == 1 by {
                        assert(self.data@[cc] == pm[cc]);
                        assert(pm[cc]@[cc] == 1);
                    }
                    assert(self.data@[pc as int]@[pc as int] == gf_mul(*t, inv, pivot));
                    // the scaled row is an invertible multiple of the old
                    // one, so the kernel is unchanged
                    assert forall|v: Seq<u8>|
                        v.len() == n && #[trigger] all_dots_zero(*t, self.data@, v) implies rows_dots_zero(
                        *t,
                        om,
                        v,
                    ) by {
                        assert forall|m2: int| 0 <= m2 < n implies #[trigger] dot(*t, pm[m2]@, v)
                            == 0 by {
                            if m2 == pc as int {
                                assert forall|j: int|
                                    0 <= j < n implies #[trigger] pm[m2]@[j] == gf_mul(
                                    *t,
                                    pivot,
                                    self.data@[pc as int]@[j],
                                ) by {
                                    assert(self.data@[pc as int]@[j] == gf_mul(
                                        *t,
                                        inv,
                                        pm[pc as int]@[j],
                                    ));
                                    lemma_mul_assoc(*t, pivot, inv, pm[pc as int]@[j]);
                                    lemma_inverse(*t, pivot);
                                    lemma_mul_comm(*t, inv, pivot);
                                    lemma_mul_one(*t, pm[pc as int]@[j]);
                                    lemma_mul_comm(*t, pm[pc as int]@[j], 1u8);
                                }
                                assert(pm[pc as int]@ =~= scale_seq(
                                    *t,
                                    pivot,
                                    self.data@[pc as int]@,
                                ));
                                assert(dot(*t, self.data@[pc as int]@, v) == 0);
                                lemma_dot_from_scale(*t, pivot, self.data@[pc as int]@, v, 0);
                            } else {
                                assert(dot(*t, self.data@[m2]@, v) == 0);
                                assert(pm[m2] == self.data@[m2]);
                            }
                        }
                        assert(all_dots_zero(*t, pm, v));
                    }
                }
            }
            assert(self.data@[pc as int]@[pc as int] == 1);

            // Subtract multiples of row pc from every row below it.
            let prow = copy_row(&self.data[pc]);
            let prhs_row = copy_row(&rhs[pc]);
            let mut mb: usize = pc + 1;
            while mb < n
                invariant
                    t.wf(),
                    pc < n,
                    pc + 1 <= mb <= n,
                    om.len() == n,
                    self.data@.len() == n,
                    forall|i: int| 0 <= i < n ==> (#[trigger] self.data@[i])@.len() == n,
                    rhs@.len() == n,
                    forall|i: int| 0 <= i < n ==> (#[trigger] rhs@[i])@.len() == x,
                    prow@ == self.data@[pc as int]@,
                    prhs_row@ == rhs@[pc as int]@,
                    self.data@[pc as int]@[pc as int] == 1,
                    forall|sol: Seq<Seq<u8>>|
                        #[trigger] good_sol(*t, om, orh, x as int, sol) ==> rows_solve(
                            *t,
                            self.data@,
                            rhs@,
                            0,
                            n as int,
                            x as int,
                            sol,
                        ),
                    forall|v: Seq<u8>|
                        v.len() == n && #[trigger] all_dots_zero(*t, self.data@, v)
                            ==> rows_dots_zero(*t, om, v),
                    echelon(self.data@, pc as int, n as int),
                    forall|r: int| pc < r < mb ==> #[trigger] self.data@[r]@[pc as int] == 0,
                decreases n - mb,
            {
                let s = self.data[mb][pc];
                if s != 0 {
                    let ghost pm = self.data@;
                    let ghost pr = rhs@;
                    let mut trow = copy_row(&self.data[mb]);
                    row_xor_scale(t, &mut trow, &prow, s);
                    set_row(&mut self.data, mb, trow);
                    let mut trh = copy_row(&rhs[mb]);
                    row_xor_scale(t, &mut trh, &prhs_row, s);
                    set_row(rhs, mb, trh);
                    proof {
                        assert(self.data@[mb as int]@ == xor_seq(
                            pm[mb as int]@,
                            scale_seq(*t, s, prow@),
                        ));
                        assert(rhs@[mb as int]@ == xor_seq(
                            pr[mb as int]@,
                            scale_seq(*t, s, prhs_row@),
                        ));
                        assert forall|i: int| 0 <= i < n implies (#[trigger] self.data@[i])@.len()
                            == n by {
                            if i != mb as int {
                                assert(self.data@[i] == pm[i]);
                            }
                        }
                        assert forall|i: int| 0 <= i < n implies (#[trigger] rhs@[i])@.len()
                            == x by {
                            if i != mb as int {
                                assert(rhs@[i] == pr[i]);
                            }
                        }
                        assert forall|sol: Seq<Seq<u8>>|
                            #[trigger] good_sol(*t, om, orh, x as int, sol) implies rows_solve(
                            *t,
                            self.data@,
                            rhs@,
                            0,
                            n as int,
                            x as int,
                            sol,
                        ) by {
                            assert(rows_solve(*t, pm, pr, 0, n as int, x as int, sol));
                            assert forall|r: int, p: int|
                                0 <= r < n && 0 <= p < x implies #[trigger] dot(
                                *t,
                                self.data@[r]@,
                                col(sol, p),
                            ) == rhs@[r]@[p] by {
                                assert(col(sol, p).len() == n);
                                if r == mb as int {
                                    assert(dot(*t, pm[r]@, col(sol, p)) == pr[r]@[p]);
                                    assert(dot(*t, pm[pc as int]@, col(sol, p))
                                        == pr[pc as int]@[p]);
                                    assert(prow@ == pm[pc as int]@);
                                    lemma_dot_from_elim(*t, pm[r]@, prow@, s, col(sol, p), 0);
                                    assert(rhs@[r]@[p] == gf_add(
                                        pr[r]@[p],
                                        gf_mul(*t, s, prhs_row@[p]),
                                    ));
                                    assert(prhs_row@[p] == pr[pc as int]@[p]);
                                } else {
                                    assert(dot(*t, pm[r]@, col(sol, p)) == pr[r]@[p]);
                                }
                            }
                        }
                        assert forall|cc: int, r: int|
                            0 <= cc < pc && cc < r < n implies #[trigger] self.data@[r]@[cc]
                            == 0 by {
                            if r == mb as int {
                                assert(pm[r]@[cc] == 0);
                                assert(pm[pc as int]@[cc] == 0);
                                assert(prow@[cc] == 0);
                                assert(self.data@[r]@[cc] == gf_add(
                                    pm[r]@[cc],
                                    gf_mul(*t, s, prow@[cc]),
                                ));
                                assert((0u8 ^ 0u8) == 0u8) by (bit_vector);
                            } else {
                                assert(pm[r]@[cc] == 0);
                            }
                        }
                        assert forall|cc: int| 0 <= cc < pc implies #[trigger] self.data@[cc]@[cc]
                            == 1 by {
                            assert(self.data@[cc] == pm[cc]);
                            assert(pm[cc]@[cc] == 1);
                        }
                        assert forall|r: int| pc < r < mb + 1 implies #[trigger] self.data@[r]@[pc as int]
                            == 0 by {
                            if r == mb as int {
                                assert(prow@[pc as int] == 1);
                                assert(self.data@[r]@[pc as int] == gf_add(
                                    pm[r]@[pc as int],
                                    gf_mul(*t, s, prow@[pc as int]),
                                ));
                                lemma_mul_one(*t, s);
                                assert((s ^ s) == 0u8) by (bit_vector);
                            } else {
                                assert(pm[r]@[pc as int] == 0);
                            }
                        }
                        // the row operation is invertible, so the kernel
                        // of the current matrix is unchanged
                        assert forall|v: Seq<u8>|
                            v.len() == n && #[trigger] all_dots_zero(*t, self.data@, v) implies rows_dots_zero(
                            *t,
                            om,
                            v,
                        ) by {
                            assert forall|m2: int|
                                0 <= m2 < n implies #[trigger] dot(*t, pm[m2]@, v) == 0 by {
                                if m2 == mb as int {
                                    assert forall|j: int|
                                        0 <= j < n implies #[trigger] pm[m2]@[j] == gf_add(
                                        self.data@[mb as int]@[j],
                                        gf_mul(*t, s, prow@[j]),
                                    ) by {
                                        let a = pm[m2]@[j];
                                        let b = gf_mul(*t, s, prow@[j]);
                                        assert(self.data@[mb as int]@[j] == gf_add(a, b));
                                        assert(((a ^ b) ^ b) == a) by (bit_vector);
                                    }
                                    assert(pm[m2]@ =~= xor_seq(
                                        self.data@[mb as int]@,
                                        scale_seq(*t, s, prow@),
                                    ));
                                    lemma_dot_from_elim(
                                        *t,
                                        self.data@[mb as int]@,
                                        prow@,
                                        s,
                                        v,
                                        0,
                                    );
                                    assert(dot(*t, self.data@[mb as int]@, v) == 0);
                                    assert(dot(*t, self.data@[pc as int]@, v) == 0);
                                    assert(prow@ == self.data@[pc as int]@);
                                    assert((0u8 ^ 0u8) == 0u8) by (bit_vector);
                                } else {
                                    assert(dot(*t, self.data@[m2]@, v) == 0);
                                    assert(pm[m2] == self.data@[m2]);
                                }
                            }
                            assert(all_dots_zero(*t, pm, v));
                        }
                    }
                }
                mb += 1;
            }
            proof {
                assert forall|cc: int, r: int|
                    0 <= cc < pc + 1 && cc < r < n implies #[trigger] self.data@[r]@[cc] == 0 by {
                    if cc == pc as int {
                        assert(self.data@[r]@[pc as int] == 0);
                    }
                }
                assert forall|cc: int| 0 <= cc < pc + 1 implies #[trigger] self.data@[cc]@[cc]
                    == 1 by {
                    if cc == pc as int {
                        assert(self.data@[pc as int]@[pc as int] == 1);
                    }
                }
            }
            pc += 1;
        }

        // Back substitution.  Row n-1 of the right-hand side already holds
        // the last solution chunk; walk upward and fold in the rows below.
        let ghost m1 = self.data@;
        proof {
            assert forall|sol: Seq<Seq<u8>>|
                #[trigger] good_sol(*t, om, orh, x as int, sol) implies rows_match(
                rhs@,
                (n - 1) as int,
                n as int,
                x as int,
                sol,
            ) by {
                assert forall|p: int| 0 <= p < x implies #[trigger] dot(
                    *t,
                    m1[(n - 1) as int]@,
                    col(sol, p),
                ) == rhs@[(n - 1) as int]@[p] by {
                    assert(rows_solve(*t, self.data@, rhs@, 0, n as int, x as int, sol));
                }
                assert forall|j: int| 0 <= j < n - 1 implies #[trigger] m1[(n - 1) as int]@[j]
                    == 0 by {
                    assert(m1[(n - 1) as int]@[j] == 0);
                }
                assert(sol.len() == n);
                lemma_back_init(*t, m1, rhs@, (n - 1) as int, n as int, x as int, sol);
                lemma_back_done(*t, m1, rhs@, (n - 1) as int, n as int, x as int, sol);
                assert forall|r: int, p: int|
                    (n - 1) <= r < n && 0 <= p < x implies #[trigger] rhs@[r]@[p] == sol[r][p] by {
                    assert(rhs@[(n - 1) as int]@[p] == sol[(n - 1) as int][p]);
                }
            }
        }

        let mut mi: usize = n - 1;
        while mi > 0
            invariant
                t.wf(),
                mi <= n - 1,
                n >= 1,
                n == old(rhs)@.len(),
                om.len() == n,
                self.data@ == m1,
                self.data@.len() == n,
                forall|i: int| 0 <= i < n ==> (#[trigger] self.data@[i])@.len() == n,
                rhs@.len() == n,
                forall|i: int| 0 <= i < n ==> (#[trigger] rhs@[i])@.len() == x,
                echelon(m1, n as int, n as int),
                forall|sol: Seq<Seq<u8>>|
                    #[trigger] good_sol(*t, om, orh, x as int, sol) ==> rows_solve(
                        *t,
                        m1,
                        rhs@,
                        0,
                        mi as int,
                        x as int,
                        sol,
                    ),
                forall|sol: Seq<Seq<u8>>|
                    #[trigger] good_sol(*t, om, orh, x as int, sol) ==> rows_match(
                        rhs@,
                        mi as int,
                        n as int,
                        x as int,
                        sol,
                    ),
            decreases mi,
        {
            let m = mi - 1;
            proof {
                assert forall|sol: Seq<Seq<u8>>|
                    #[trigger] good_sol(*t, om, orh, x as int, sol) implies partial_back(
                    *t,
                    m1,
                    rhs@,
                    m as int,
                    m as int + 1,
                    x as int,
                    sol,
                ) by {
                    assert forall|p: int| 0 <= p < x implies #[trigger] dot(
                        *t,
                        m1[m as int]@,
                        col(sol, p),
                    ) == rhs@[m as int]@[p] by {
                        assert(rows_solve(*t, m1, rhs@, 0, mi as int, x as int, sol));
                    }
                    assert forall|j: int| 0 <= j < m implies #[trigger] m1[m as int]@[j]
                        == 0 by {
                        assert(m1[m as int]@[j] == 0);
                    }
                    assert(m1[m as int]@[m as int] == 1);
                    assert(sol.len() == n);
                    lemma_back_init(*t, m1, rhs@, m as int, n as int, x as int, sol);
                }
            }
            let mut cc: usize = m + 1;
            while cc < n
                invariant
                    t.wf(),
                    m + 1 <= cc <= n,
                    m == mi - 1,
                    1 <= mi <= n - 1,
                    n == old(rhs)@.len(),
                    om.len() == n,
                    self.data@ == m1,
                    self.data@.len() == n,
                    forall|i: int| 0 <= i < n ==> (#[trigger] self.data@[i])@.len() == n,
                    rhs@.len() == n,
                    forall|i: int| 0 <= i < n ==> (#[trigger] rhs@[i])@.len() == x,
                    echelon(m1, n as int, n as int),
                    forall|sol: Seq<Seq<u8>>|
                        #[trigger] good_sol(*t, om, orh, x as int, sol) ==> rows_solve(
                            *t,
                            m1,
                            rhs@,
                            0,
                            mi as int - 1,
                            x as int,
                            sol,
                        ),
                    forall|sol: Seq<Seq<u8>>|
                        #[trigger] good_sol(*t, om, orh, x as int, sol) ==> rows_match(
                            rhs@,
                            mi as int,
                            n as int,
                            x as int,
                            sol,
                        ),
                    forall|sol: Seq<Seq<u8>>|
                        #[trigger] good_sol(*t, om, orh, x as int, sol) ==> partial_back(
                            *t,
                            m1,
                            rhs@,
                            m as int,
                            cc as int,
                            x as int,
                            sol,
                        ),
                decreases n - cc,
            {
                let s = self.data[m][cc];
                let rc = copy_row(&rhs[cc]);
                let mut trh = copy_row(&rhs[m]);
                row_xor_scale(t, &mut trh, &rc, s);
                let ghost pr = rhs@;
                set_row(rhs, m, trh);
                proof {
                    assert(rhs@[m as int]@ == xor_seq(pr[m as int]@, scale_seq(*t, s, rc@)));
                    assert forall|i: int| 0 <= i < n implies (#[trigger] rhs@[i])@.len() == x by {
                        if i != m as int {
                            assert(rhs@[i] == pr[i]);
                        }
                    }
                    assert forall|sol: Seq<Seq<u8>>|
                        #[trigger] good_sol(*t, om, orh, x as int, sol) implies partial_back(
                        *t,
                        m1,
                        rhs@,
                        m as int,
                        cc as int + 1,
                        x as int,
                        sol,
                    ) by {
                        assert(partial_back(*t, m1, pr, m as int, cc as int, x as int, sol));
                        assert forall|p: int| 0 <= p < x implies #[trigger] pr[cc as int]@[p]
                            == sol[cc as int][p] by {
                            assert(rows_match(pr, mi as int, n as int, x as int, sol));
                        }
                        assert(rc@ == pr[cc as int]@);
                        assert(rhs@[m as int]@ == xor_seq(
                            pr[m as int]@,
                            scale_seq(*t, m1[m as int]@[cc as int], pr[cc as int]@),
                        ));
                        assert(sol.len() == n);
                        lemma_back_step(
                            *t,
                            m1,
                            pr,
                            rhs@,
                            m as int,
                            cc as int,
                            n as int,
                            x as int,
                            sol,
                        );
                    }
                    assert forall|sol: Seq<Seq<u8>>|
                        #[trigger] good_sol(*t, om, orh, x as int, sol) implies rows_solve(
                        *t,
                        m1,
                        rhs@,
                        0,
                        mi as int - 1,
                        x as int,
                        sol,
                    ) by {
                        assert(rows_solve(*t, m1, pr, 0, mi as int - 1, x as int, sol));
                        assert forall|r: int, p: int|
                            0 <= r < mi - 1 && 0 <= p < x implies #[trigger] dot(
                            *t,
                            m1[r]@,
                            col(sol, p),
                        ) == rhs@[r]@[p] by {
                            assert(rhs@[r] == pr[r]);
                            assert(dot(*t, m1[r]@, col(sol, p)) == pr[r]@[p]);
                        }
                    }
                    assert forall|sol: Seq<Seq<u8>>|
                        #[trigger] good_sol(*t, om, orh, x as int, sol) implies rows_match(
                        rhs@,
                        mi as int,
                        n as int,
                        x as int,
                        sol,
                    ) by {
                        assert(rows_match(pr, mi as int, n as int, x as int, sol));
                        assert forall|r: int, p: int|
                            mi <= r < n && 0 <= p < x implies #[trigger] rhs@[r]@[p]
                            == sol[r][p] by {
                            assert(rhs@[r] == pr[r]);
                            assert(pr[r]@[p] == sol[r][p]);
                        }
                    }
                }
                cc += 1;
            }
            proof {
                assert forall|sol: Seq<Seq<u8>>|
                    #[trigger] good_sol(*t, om, orh, x as int, sol) implies rows_match(
                    rhs@,
                    mi as int - 1,
                    n as int,
                    x as int,
                    sol,
                ) by {
                    assert(partial_back(*t, m1, rhs@, m as int, n as int, x as int, sol));
                    lemma_back_done(*t, m1, rhs@, m as int, n as int, x as int, sol);
                    assert forall|r: int, p: int|
                        mi - 1 <= r < n && 0 <= p < x implies #[trigger] rhs@[r]@[p]
                        == sol[r][p] by {
                        if r == m as int {
                            assert(rhs@[m as int]@[p] == sol[m as int][p]);
                        } else {
                            assert(rows_match(rhs@, mi as int, n as int, x as int, sol));
                            assert(rhs@[r]@[p] == sol[r][p]);
                        }
                    }
                }
            }
            mi -= 1;
        }


        proof {
            assert forall|sol: Seq<Seq<u8>>|
                #[trigger] good_sol(*t, om, orh, x as int, sol) implies grid(*rhs) == sol by {
                assert(rows_match(rhs@, 0, n as int, x as int, sol));
                assert forall|r: int| 0 <= r < n implies #[trigger] grid(*rhs)[r] == sol[r] by {
                    assert(grid(*rhs)[r] == rhs@[r]@);
                    assert(rhs@[r]@.len() == x);
                    assert(sol[r].len() == x);
                    assert forall|p: int| 0 <= p < x implies rhs@[r]@[p] == sol[r][p] by {
                        assert(rows_match(rhs@, 0, n as int, x as int, sol));
                    }
                    assert(rhs@[r]@ =~= sol[r]);
                }
                assert(grid(*rhs) =~= sol);
            }
        }
        Ok(())
    }
}

} // verus!
