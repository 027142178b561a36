//! Square matrices stored row-major in a flat vector, generic in the type of
//! their entries: the identity, the matrix of a controlled operation, and
//! the 2x2 matrices of single-qubit gates.
use crate::error::SimError;
use crate::index::{dim_of, matrix_dim};
use vstd::arithmetic::div_mod::{
    lemma_fundamental_div_mod_converse_div,
    lemma_fundamental_div_mod_converse_mod,
};
use vstd::arithmetic::power2::{lemma_pow2_adds, lemma_pow2_pos};
use vstd::prelude::*;

verus! {

/// Entry `(r, c)` of the `dim x dim` row-major matrix `m`.
pub open spec fn entry<A>(m: Seq<A>, dim: int, r: int, c: int) -> A {
    m[r * dim + c]
}

/// `m` is the `dim x dim` identity, with `one` on the diagonal and `zero` elsewhere.
pub open spec fn is_identity<A>(m: Seq<A>, dim: int, zero: A, one: A) -> bool {
    &&& m.len() == dim * dim
    &&& forall|r: int, c: int|
        0 <= r < dim && 0 <= c < dim ==> #[trigger] entry(m, dim, r, c) == if r == c {
            one
        } else {
            zero
        }
}

/// Entry `(r, c)` of the `dim x dim` matrix that applies the `tdim x tdim`
/// matrix `target` in its last `tdim` rows and columns and the identity elsewhere.
pub open spec fn controlled_entry<A>(
    target: Seq<A>,
    tdim: int,
    dim: int,
    r: int,
    c: int,
    zero: A,
    one: A,
) -> A {
    let offset = dim - tdim;
    if offset <= r && offset <= c {
        entry(target, tdim, r - offset, c - offset)
    } else if r == c {
        one
    } else {
        zero
    }
}

/// `m` is the `dim x dim` matrix that applies `target` to the last `tdim`
/// basis states and leaves the others alone.
pub open spec fn is_controlled<A>(m: Seq<A>, target: Seq<A>, tdim: int, dim: int, zero: A, one: A) -> bool {
    &&& m.len() == dim * dim
    &&& forall|r: int, c: int|
        0 <= r < dim && 0 <= c < dim ==> #[trigger] entry(m, dim, r, c) == controlled_entry(
            target,
            tdim,
            dim,
            r,
            c,
            zero,
            one,
        )
}

/// A controlled matrix holds every entry of the target matrix in its last
/// `tdim` rows and columns, at the same place within that block, and is the
/// identity in all its other rows and columns.
pub proof fn lemma_controlled_block<A>(
    m: Seq<A>,
    target: Seq<A>,
    tdim: int,
    dim: int,
    zero: A,
    one: A,
)
    requires
        is_controlled(m, target, tdim, dim, zero, one),
        0 < tdim <= dim,
    ensures
        forall|r: int, c: int|
            0 <= r < tdim && 0 <= c < tdim ==> m[(dim - tdim + r) * dim + (dim - tdim + c)]
                == #[trigger] target[r * tdim + c],
        forall|r: int, c: int|
            0 <= r < dim && 0 <= c < dim && (r < dim - tdim || c < dim - tdim) ==> #[trigger] m[r
                * dim + c] == if r == c {
                one
            } else {
                zero
            },
{
    assert forall|r: int, c: int| 0 <= r < tdim && 0 <= c < tdim implies m[(dim - tdim + r) * dim + (
    dim - tdim + c)] == #[trigger] target[r * tdim + c] by {
        assert(entry(m, dim, dim - tdim + r, dim - tdim + c) == controlled_entry(
            target,
            tdim,
            dim,
            dim - tdim + r,
            dim - tdim + c,
            zero,
            one,
        ));
    }
    assert forall|r: int, c: int|
        0 <= r < dim && 0 <= c < dim && (r < dim - tdim || c < dim - tdim) implies #[trigger] m[r
            * dim + c] == if r == c {
            one
        } else {
            zero
        } by {
        assert(entry(m, dim, r, c) == controlled_entry(target, tdim, dim, r, c, zero, one));
    }
}

/// Row `r` and column `c` can be read back from the flat index `r * dim + c`.
pub proof fn lemma_flat_index(r: int, c: int, dim: int)
    requires
        0 <= r,
        0 <= c < dim,
    ensures
        (r * dim + c) / dim == r,
        (r * dim + c) % dim == c,
{
    lemma_fundamental_div_mod_converse_div(r * dim + c, dim, r, c);
    lemma_fundamental_div_mod_converse_mod(r * dim + c, dim, r, c);
}

/// The flat index of `(r, c)` with `r < n` and `c < dim` is below `n * dim`,
/// and it is below that of any later entry in row-major order.
pub proof fn lemma_flat_bound(r: int, c: int, n: int, dim: int)
    requires
        0 <= r < n,
        0 <= c < dim,
    ensures
        0 <= r * dim + c < n * dim,
        r * dim + c + 1 <= (r + 1) * dim,
{
    assert(0 <= r * dim + c < n * dim) by (nonlinear_arith)
        requires
            0 <= r < n,
            0 <= c < dim,
    ;
    assert(r * dim + c + 1 <= (r + 1) * dim) by (nonlinear_arith)
        requires
            0 <= c < dim,
    ;
}

/// Two entries at different positions have different flat indices.
pub proof fn lemma_flat_injective(r1: int, c1: int, r2: int, c2: int, dim: int)
    requires
        0 <= r1,
        0 <= r2,
        0 <= c1 < dim,
        0 <= c2 < dim,
        r1 != r2 || c1 != c2,
    ensures
        r1 * dim + c1 != r2 * dim + c2,
{
    lemma_flat_index(r1, c1, dim);
    lemma_flat_index(r2, c2, dim);
}

/// The `dim x dim` identity matrix, `one` on the diagonal and `zero` elsewhere.
pub fn identity_matrix<A: Copy>(dim: usize, zero: A, one: A) -> (m: Vec<A>)
    requires
        dim * dim <= usize::MAX,
    ensures
        is_identity(m@, dim as int, zero, one),
{
    let mut m: Vec<A> = Vec::new();
    let mut row: usize = 0;
    while row < dim
        invariant
            dim * dim <= usize::MAX,
            row <= dim,
            m@.len() == row * dim,
            forall|r: int, c: int|
                0 <= r < row && 0 <= c < dim ==> #[trigger] entry(m@, dim as int, r, c) == if r
                    == c {
                    one
                } else {
                    zero
                },
        decreases dim - row,
    {
        let mut col: usize = 0;
        while col < dim
            invariant
                dim * dim <= usize::MAX,
                row < dim,
                col <= dim,
                m@.len() == row * dim + col,
                forall|r: int, c: int|
                    (0 <= r < row && 0 <= c < dim) || (r == row && 0 <= c < col)
                        ==> #[trigger] entry(m@, dim as int, r, c) == if r == c {
                        one
                    } else {
                        zero
                    },
            decreases dim - col,
        {
            let ghost before = m@;
            proof {
                lemma_flat_bound(row as int, col as int, dim as int, dim as int);
            }
            if row == col {
                m.push(one);
            } else {
                m.push(zero);
            }
            proof {
                assert forall|r: int, c: int|
                    (0 <= r < row && 0 <= c < dim) || (r == row && 0 <= c < col + 1)
                        implies #[trigger] entry(m@, dim as int, r, c) == if r == c {
                    one
                } else {
                    zero
                } by {
                    if r == row && c == col {
                        assert(r * dim + c == before.len());
                    } else {
                        if r < row {
                            lemma_flat_bound(r, c, row as int, dim as int);
                            assert(r * dim + c < row * dim) by (nonlinear_arith)
                                requires
                                    0 <= r < row,
                                    0 <= c < dim,
                            ;
                        }
                        assert(r * dim + c < before.len());
                        assert(entry(m@, dim as int, r, c) == entry(before, dim as int, r, c));
                    }
                }
            }
            col = col + 1;
        }
        proof {
            assert((row + 1) * dim == row * dim + dim) by (nonlinear_arith);
        }
        row = row + 1;
    }
    m
}

/// The sizes that `controlled_matrix` computes fit in a word: the size of
/// the target matrix once there is a control and the target dimension fits,
/// then the qubit count and the size of the full matrix once the target
/// matrix has that size.
pub open spec fn controlled_sizes_fit(control_count: usize, target_count: usize, matrix_len: nat) -> bool {
    let tq = (target_count as u32) as nat;
    let tdim = dim_of(tq);
    let all = ((control_count + target_count) as u32) as nat;
    (control_count > 0 && tq < usize::BITS) ==> {
        &&& tdim * tdim <= usize::MAX
        &&& matrix_len == tdim * tdim ==> {
            &&& control_count + target_count <= usize::MAX
            &&& all < usize::BITS ==> dim_of(all) * dim_of(all) <= usize::MAX
        }
    }
}

/// The `dim x dim` matrix, `dim = 2^(control_count + target_qubit_count)`,
/// that applies `target_matrix` when every control qubit is set and the
/// identity otherwise: with the controls as the most significant qubits,
/// `target_matrix` fills the last `2^target_qubit_count` rows and columns.
pub fn controlled_matrix<A: Copy>(
    control_count: usize,
    target_qubit_count: usize,
    target_matrix: &[A],
    zero: A,
    one: A,
) -> (r: Result<Vec<A>, SimError>)
    requires
        controlled_sizes_fit(control_count, target_qubit_count, target_matrix@.len()),
    ensures
        ({
            let tq = (target_qubit_count as u32) as nat;
            let all = ((control_count + target_qubit_count) as u32) as nat;
            let cq = (control_count as u32) as nat;
            let tdim = dim_of(tq);
            if control_count == 0 {
                r == Err::<Vec<A>, SimError>(SimError::ControlledOperationNoControls)
            } else if !(tq < usize::BITS) {
                r == Err::<Vec<A>, SimError>(
                    SimError::TooManyQubits { num_qubits: target_qubit_count },
                )
            } else if target_matrix@.len() != tdim * tdim {
                r == Err::<Vec<A>, SimError>(SimError::ControlledOperationShape)
            } else if !(all < usize::BITS) {
                r == Err::<Vec<A>, SimError>(
                    SimError::TooManyQubits { num_qubits: (control_count + target_qubit_count) as usize },
                )
            } else if !(cq < usize::BITS) {
                r == Err::<Vec<A>, SimError>(SimError::TooManyQubits { num_qubits: control_count })
            } else {
                r matches Ok(m) && is_controlled(
                    m@,
                    target_matrix@,
                    tdim as int,
                    dim_of(all) as int,
                    zero,
                    one,
                )
            }
        }),
{
    if control_count == 0 {
        return Err(SimError::ControlledOperationNoControls);
    }
    let target_dim = match matrix_dim(target_qubit_count) {
        Ok(d) => d,
        Err(e) => return Err(e),
    };
    if target_matrix.len() != target_dim * target_dim {
        return Err(SimError::ControlledOperationShape);
    }
    let dim = match matrix_dim(control_count + target_qubit_count) {
        Ok(d) => d,
        Err(e) => return Err(e),
    };
    let mut matrix = identity_matrix(dim, zero, one);
    let control_dim = match matrix_dim(control_count) {
        Ok(d) => d,
        Err(e) => return Err(e),
    };
    proof {
        lemma_dims_multiply(control_count, target_qubit_count);
        lemma_pow2_pos((control_count as u32) as nat);
        lemma_pow2_pos((target_qubit_count as u32) as nat);
        assert((control_dim - 1) * target_dim == dim - target_dim) by (nonlinear_arith)
            requires
                control_dim * target_dim == dim,
        ;
    }
    let offset = (control_dim - 1) * target_dim;
    let ghost tgt = target_matrix@;
    let ghost d = dim as int;
    let ghost td = target_dim as int;
    let mut row: usize = 0;
    while row < target_dim
        invariant
            tgt == target_matrix@,
            d == dim,
            td == target_dim,
            target_matrix@.len() == td * td,
            td * td <= usize::MAX,
            offset == d - td,
            0 < td <= d,
            d * d <= usize::MAX,
            row <= target_dim,
            matrix@.len() == d * d,
            forall|r: int, c: int|
                0 <= r < d && 0 <= c < d ==> #[trigger] entry(matrix@, d, r, c) == if offset <= r
                    < offset + row && offset <= c {
                    entry(tgt, td, r - offset, c - offset)
                } else if r == c {
                    one
                } else {
                    zero
                },
        decreases target_dim - row,
    {
        let mut col: usize = 0;
        while col < target_dim
            invariant
                tgt == target_matrix@,
                d == dim,
                td == target_dim,
                target_matrix@.len() == td * td,
                td * td <= usize::MAX,
                offset == d - td,
                0 < td <= d,
                d * d <= usize::MAX,
                row < target_dim,
                col <= target_dim,
                matrix@.len() == d * d,
                forall|r: int, c: int|
                    0 <= r < d && 0 <= c < d ==> #[trigger] entry(matrix@, d, r, c) == if offset
                        <= r && offset <= c && (r < offset + row || (r == offset + row && c
                        < offset + col)) {
                        entry(tgt, td, r - offset, c - offset)
                    } else if r == c {
                        one
                    } else {
                        zero
                    },
            decreases target_dim - col,
        {
            proof {
                lemma_flat_bound(row as int, col as int, td, td);
                lemma_flat_bound((offset + row) as int, (offset + col) as int, d, d);
                assert(row * td + col < td * td);
                assert(row * target_dim + col < target_matrix@.len());
            }
            let value = target_matrix[row * target_dim + col];
            let at = (offset + row) * dim + offset + col;
            let ghost before = matrix@;
            matrix.set(at, value);
            proof {
                assert forall|r: int, c: int| 0 <= r < d && 0 <= c < d implies #[trigger] entry(
                    matrix@,
                    d,
                    r,
                    c,
                ) == if offset <= r && offset <= c && (r < offset + row || (r == offset + row && c
                    < offset + col + 1)) {
                    entry(tgt, td, r - offset, c - offset)
                } else if r == c {
                    one
                } else {
                    zero
                } by {
                    lemma_flat_bound(r, c, d, d);
                    if r == offset + row && c == offset + col {
                        assert(r * d + c == at);
                    } else {
                        lemma_flat_injective(r, c, (offset + row) as int, (offset + col) as int, d);
                        assert(entry(matrix@, d, r, c) == entry(before, d, r, c));
                    }
                }
            }
            col = col + 1;
        }
        row = row + 1;
    }
    proof {
        assert forall|r: int, c: int| 0 <= r < d && 0 <= c < d implies #[trigger] entry(
            matrix@,
            d,
            r,
            c,
        ) == controlled_entry(tgt, td, d, r, c, zero, one) by {}
    }
    Ok(matrix)
}

/// When the dimensions of the controls, of the targets and of both fit in a
/// word, the dimension of both is the product of the other two.
proof fn lemma_dims_multiply(c: usize, t: usize)
    requires
        c + t <= usize::MAX,
        (c as u32) < usize::BITS,
        (t as u32) < usize::BITS,
        ((c + t) as u32) < usize::BITS,
    ensures
        dim_of((c as u32) as nat) * dim_of((t as u32) as nat) == dim_of(
            ((c + t) as u32) as nat,
        ),
{
    let s = (c + t) as usize;
    assert((c as u32) + (t as u32) == (s as u32)) by (bit_vector)
        requires
            s == c + t,
            (c as u32) < 64,
            (t as u32) < 64,
            (s as u32) < 64,
    ;
    lemma_pow2_adds((c as u32) as nat, (t as u32) as nat);
}

/// A row-major vector of the given entries.
fn vec_of<A: Copy>(entries: &[A]) -> (v: Vec<A>)
    ensures
        v@ == entries@,
{
    let mut v: Vec<A> = Vec::new();
    let mut i: usize = 0;
    while i < entries.len()
        invariant
            i <= entries@.len(),
            v@ == entries@.take(i as int),
        decreases entries@.len() - i,
    {
        v.push(entries[i]);
        i = i + 1;
        proof {
            assert(v@ =~= entries@.take(i as int));
        }
    }
    proof {
        assert(entries@.take(i as int) =~= entries@);
    }
    v
}

/// The 2x2 identity.
pub fn i_matrix<A: Copy>(zero: A, one: A) -> (m: Vec<A>)
    ensures
        m@ == seq![one, zero, zero, one],
{
    let m = vec_of(&[one, zero, zero, one]);
    proof {
        assert(m@ =~= seq![one, zero, zero, one]);
    }
    m
}

/// The bit flip (Pauli X).
pub fn x_matrix<A: Copy>(zero: A, one: A) -> (m: Vec<A>)
    ensures
        m@ == seq![zero, one, one, zero],
{
    let m = vec_of(&[zero, one, one, zero]);
    proof {
        assert(m@ =~= seq![zero, one, one, zero]);
    }
    m
}

/// Pauli Y, with `i` the imaginary unit and `minus_i` its negation.
pub fn y_matrix<A: Copy>(zero: A, i: A, minus_i: A) -> (m: Vec<A>)
    ensures
        m@ == seq![zero, minus_i, i, zero],
{
    let m = vec_of(&[zero, minus_i, i, zero]);
    proof {
        assert(m@ =~= seq![zero, minus_i, i, zero]);
    }
    m
}

/// The phase flip (Pauli Z), with `minus_one` the negation of `one`.
pub fn z_matrix<A: Copy>(zero: A, one: A, minus_one: A) -> (m: Vec<A>)
    ensures
        m@ == seq![one, zero, zero, minus_one],
{
    let m = vec_of(&[one, zero, zero, minus_one]);
    proof {
        assert(m@ =~= seq![one, zero, zero, minus_one]);
    }
    m
}

/// The 4x4 matrix that swaps two qubits, with `phase` on the two basis
/// states that it exchanges: the swap when `phase` is `one`, iSWAP when it
/// is the imaginary unit.
pub open spec fn swap_entries<A>(zero: A, one: A, phase: A) -> Seq<A> {
    seq![
        one, zero, zero, zero,
        zero, zero, phase, zero,
        zero, phase, zero, zero,
        zero, zero, zero, one,
    ]
}

/// The swap of two qubits.
pub fn swap_matrix<A: Copy>(zero: A, one: A) -> (m: Vec<A>)
    ensures
        m@ == swap_entries(zero, one, one),
{
    let m = vec_of(
        &[one, zero, zero, zero, zero, zero, one, zero, zero, one, zero, zero, zero, zero, zero, one],
    );
    proof {
        assert(m@ =~= swap_entries(zero, one, one));
    }
    m
}

/// iSWAP: the swap of two qubits with the phase `i` (the imaginary unit) on
/// the two basis states that it exchanges.
pub fn iswap_matrix<A: Copy>(zero: A, one: A, i: A) -> (m: Vec<A>)
    ensures
        m@ == swap_entries(zero, one, i),
{
    let m = vec_of(
        &[one, zero, zero, zero, zero, zero, i, zero, zero, i, zero, zero, zero, zero, zero, one],
    );
    proof {
        assert(m@ =~= swap_entries(zero, one, i));
    }
    m
}

/// A 2x2 matrix, the matrix of a single-qubit gate.
#[derive(Clone, Copy)]
pub struct Mat2<A> {
    pub m00: A,
    pub m01: A,
    pub m10: A,
    pub m11: A,
}

/// `r` is a possible result of the product `a * b`, given that `dot2(w, x, y, z)`
/// computes `w * x + y * z`.
pub open spec fn is_product<A, F: Fn(A, A, A, A) -> A>(a: Mat2<A>, b: Mat2<A>, r: Mat2<A>, dot2: F) -> bool {
    &&& call_ensures(dot2, (a.m00, b.m00, a.m01, b.m10), r.m00)
    &&& call_ensures(dot2, (a.m00, b.m01, a.m01, b.m11), r.m01)
    &&& call_ensures(dot2, (a.m10, b.m00, a.m11, b.m10), r.m10)
    &&& call_ensures(dot2, (a.m10, b.m01, a.m11, b.m11), r.m11)
}

/// `dot2` can be called on any four entries.
pub open spec fn total4<A, F: Fn(A, A, A, A) -> A>(dot2: F) -> bool {
    forall|w: A, x: A, y: A, z: A| #[trigger] call_requires(dot2, (w, x, y, z))
}

impl<A> Mat2<A> {
    /// The entries in row-major order.
    pub open spec fn entries(self) -> Seq<A> {
        seq![self.m00, self.m01, self.m10, self.m11]
    }
}

impl<A: Copy> Mat2<A> {

    /// The 2x2 matrix of a row-major slice of four entries; `None` for any
    /// other length.
    pub fn from_slice(matrix: &[A]) -> (r: Option<Self>)
        ensures
            matrix@.len() == 4 <==> r is Some,
            r matches Some(m) ==> m.entries() == matrix@,
    {
        if matrix.len() != 4 {
            return None;
        }
        let m = Mat2 { m00: matrix[0], m01: matrix[1], m10: matrix[2], m11: matrix[3] };
        proof {
            assert(m.entries() =~= matrix@);
        }
        Some(m)
    }

    /// The product `self * other`, each entry computed by `dot2`, which is
    /// given two pairs of factors and returns the sum of their products.
    pub fn mul<F: Fn(A, A, A, A) -> A>(&self, other: &Mat2<A>, dot2: &F) -> (r: Mat2<A>)
        requires
            total4(*dot2),
        ensures
            is_product(*self, *other, r, *dot2),
    {
        Mat2 {
            m00: dot2(self.m00, other.m00, self.m01, other.m10),
            m01: dot2(self.m00, other.m01, self.m01, other.m11),
            m10: dot2(self.m10, other.m00, self.m11, other.m10),
            m11: dot2(self.m10, other.m01, self.m11, other.m11),
        }
    }

    /// The entries in row-major order.
    pub fn into_vec(self) -> (v: Vec<A>)
        ensures
            v@ == self.entries(),
    {
        let mut v: Vec<A> = Vec::new();
        v.push(self.m00);
        v.push(self.m01);
        v.push(self.m10);
        v.push(self.m11);
        proof {
            assert(v@ =~= self.entries());
        }
        v
    }
}

} // verus!
