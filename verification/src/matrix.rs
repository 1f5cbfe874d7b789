//! Row-major layout of square matrices and the reciprocal completion of the
//! impedance matrix from its upper triangle.
use vstd::prelude::*;

verus! {

/// The flat index of row `r`, column `c` in a row-major matrix of `n` columns.
pub open spec fn flat(n: int, r: int, c: int) -> int {
    r * n + c
}

/// Entry `(r, c)` of the matrix `m` after its lower triangle has been
/// overwritten by the transpose of its upper triangle.
pub open spec fn mirrored<T>(m: Seq<T>, n: int, r: int, c: int) -> T {
    if c < r {
        m[flat(n, c, r)]
    } else {
        m[flat(n, r, c)]
    }
}

/// A cell of a matrix of `rows` rows and `cols` columns has a flat index
/// inside the matrix.
pub(crate) proof fn lemma_flat_in_rect(rows: int, cols: int, r: int, c: int)
    requires
        0 <= r < rows,
        0 <= c < cols,
    ensures
        0 <= flat(cols, r, c) < rows * cols,
{
    assert(0 <= r * cols) by (nonlinear_arith)
        requires
            0 <= r,
            0 <= cols,
    ;
    assert(r * cols + cols <= rows * cols) by (nonlinear_arith)
        requires
            r < rows,
            0 <= cols,
    ;
}

proof fn lemma_flat_injective(n: int, r: int, c: int, i: int, j: int)
    requires
        0 <= r,
        0 <= i,
        0 <= c < n,
        0 <= j < n,
        flat(n, r, c) == flat(n, i, j),
    ensures
        r == i,
        c == j,
{
    assert((r - i) * n == j - c) by (nonlinear_arith)
        requires
            r * n + c == i * n + j,
    ;
    if r > i {
        assert((r - i) * n >= n) by (nonlinear_arith)
            requires
                r - i >= 1,
                n >= 0,
        ;
    } else if r < i {
        assert((i - r) * n >= n) by (nonlinear_arith)
            requires
                i - r >= 1,
                n >= 0,
        ;
        assert((r - i) * n == -((i - r) * n)) by (nonlinear_arith);
    }
}

/// The row and column of flat index `idx` in a row-major matrix of `cols`
/// columns.
pub fn row_major_position(idx: usize, cols: usize) -> (r: (usize, usize))
    requires
        cols > 0,
    ensures
        r.0 == idx / cols,
        r.1 == idx % cols,
        r.1 < cols,
        idx == flat(cols as int, r.0 as int, r.1 as int),
        idx == r.0 * cols + r.1,
{
    proof {
        vstd::arithmetic::div_mod::lemma_fundamental_div_mod(idx as int, cols as int);
        assert(cols * (idx / cols) == (idx / cols) * cols) by (nonlinear_arith);
    }
    (idx / cols, idx % cols)
}

/// The row and column of flat index `idx` of an `n`-by-`n` impedance matrix
/// when that entry is one that is computed directly (on or above the
/// diagonal), else `None`: the entries below are copied from their mirror.
pub fn upper_entry(idx: usize, n: usize) -> (r: Option<(usize, usize)>)
    requires
        n > 0,
    ensures
        r is Some <==> idx / n <= idx % n,
        r matches Some(p) ==> p == (idx / n, idx % n) && idx == flat(n as int, p.0 as int, p.1 as int),
{
    let (i, j) = row_major_position(idx, n);
    if i <= j {
        Some((i, j))
    } else {
        None
    }
}

/// Completes an `n`-by-`n` row-major matrix by reciprocity: every entry below
/// the diagonal becomes its mirror above it. The result is symmetric, and the
/// entries on and above the diagonal are unchanged.
pub fn mirror_upper_to_lower<T: Copy>(z: &mut Vec<T>, n: usize)
    requires
        old(z).len() == n * n,
    ensures
        final(z).len() == n * n,
        forall|r: int, c: int|
            0 <= r < n && 0 <= c < n ==> #[trigger] final(z)@[flat(n as int, r, c)] == mirrored(
                old(z)@,
                n as int,
                r,
                c,
            ),
        forall|r: int, c: int|
            0 <= r < n && 0 <= c < n ==> #[trigger] final(z)@[flat(n as int, r, c)]
                == final(z)@[flat(n as int, c, r)],
        forall|r: int, c: int|
            0 <= r <= c < n ==> #[trigger] final(z)@[r * n + c] == old(z)@[r * n + c],
        forall|r: int, c: int|
            0 <= c < r < n ==> #[trigger] final(z)@[r * n + c] == old(z)@[c * n + r],
{
    let ghost orig = z@;
    let ghost ni = n as int;
    let mut i: usize = 0;
    while i < n
        invariant
            z.len() == n * n,
            ni == n as int,
            i <= n,
            forall|r: int, c: int|
                0 <= r < n && 0 <= c < n ==> #[trigger] z@[flat(ni, r, c)] == if c < r && r < i {
                    orig[flat(ni, c, r)]
                } else {
                    orig[flat(ni, r, c)]
                },
        decreases n - i,
    {
        let mut j: usize = 0;
        while j < i
            invariant
                z.len() == n * n,
                ni == n as int,
                j <= i < n,
                forall|r: int, c: int|
                    0 <= r < n && 0 <= c < n ==> #[trigger] z@[flat(ni, r, c)] == if c < r && (r
                        < i || (r == i && c < j)) {
                        orig[flat(ni, c, r)]
                    } else {
                        orig[flat(ni, r, c)]
                    },
            decreases i - j,
        {
            proof {
                lemma_flat_in_rect(ni, ni, j as int, i as int);
                lemma_flat_in_rect(ni, ni, i as int, j as int);
            }
            let src: usize = j * n + i;
            let dst: usize = i * n + j;
            let v = z[src];
            assert(v == orig[flat(ni, j as int, i as int)]) by {
                assert(z@[flat(ni, j as int, i as int)] == orig[flat(ni, j as int, i as int)]);
            }
            let ghost before = z@;
            z.set(dst, v);
            assert forall|r: int, c: int| 0 <= r < n && 0 <= c < n implies #[trigger] z@[flat(
                ni,
                r,
                c,
            )] == if c < r && (r < i || (r == i && c < j + 1)) {
                orig[flat(ni, c, r)]
            } else {
                orig[flat(ni, r, c)]
            } by {
                lemma_flat_in_rect(ni, ni, r, c);
                if flat(ni, r, c) == flat(ni, i as int, j as int) {
                    lemma_flat_injective(ni, r, c, i as int, j as int);
                } else {
                    assert(z@[flat(ni, r, c)] == before[flat(ni, r, c)]);
                }
            }
            j = j + 1;
        }
        i = i + 1;
    }
    assert forall|r: int, c: int| 0 <= r < n && 0 <= c < n implies #[trigger] z@[flat(
        n as int,
        r,
        c,
    )] == z@[flat(n as int, c, r)] by {
        assert(z@[flat(ni, r, c)] == mirrored(orig, ni, r, c));
        assert(z@[flat(ni, c, r)] == mirrored(orig, ni, c, r));
    }
    assert forall|r: int, c: int| 0 <= r <= c < n implies #[trigger] z@[r * n + c] == orig[r * n
        + c] by {
        assert(z@[flat(ni, r, c)] == mirrored(orig, ni, r, c));
    }
    assert forall|r: int, c: int| 0 <= c < r < n implies #[trigger] z@[r * n + c] == orig[c * n
        + r] by {
        assert(z@[flat(ni, r, c)] == mirrored(orig, ni, r, c));
    }
}

} // verus!
