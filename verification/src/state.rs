//! The state vector of a register of qubits, and the gates applied to it:
//! 2x2 matrices on one qubit, general unitary operations on several, and
//! measurement and reset of one qubit.
use crate::error::SimError;
use crate::gate::{copy_vec, Operation, OperationModel};
use crate::index::{
    all_distinct, bit, clear_target_bits, cleared, composed, compose_index, dim_of,
    ensure_unique_qubits, extract_sub_index, extracted, lemma_below_pow2_bits, lemma_bits_ext,
    lemma_extracted_bits,
    lemma_bits_below_pow2, lemma_cleared_bits, lemma_composed_bits, lemma_extracted_bound,
    matrix_dim, qubits_in_word, uniqueness, with_bit,
};
use crate::matrix::{lemma_flat_bound, total4, Mat2};
use vstd::arithmetic::power2::{lemma_pow2_pos, pow2};
use vstd::bits::{lemma_usize_pow2_no_overflow, lemma_usize_shl_is_mul};
use vstd::prelude::*;

verus! {

/// The amplitudes of the `2^num_qubits` basis states; bit `q` of an index is
/// the value of qubit `q` in that basis state.
pub struct StateVector<A> {
    pub num_qubits: usize,
    pub amps: Vec<A>,
}

impl<A> StateVector<A> {
    /// The register has at most a word of qubits and one amplitude per basis state.
    pub open spec fn wf(&self) -> bool {
        &&& self.num_qubits < usize::BITS
        &&& self.amps@.len() == dim_of(self.num_qubits as nat)
    }
}

/// The first position of `t` whose qubit is not below `n`.
pub open spec fn is_first_out_of_range(t: Seq<usize>, n: usize, p: int) -> bool {
    &&& 0 <= p < t.len()
    &&& t[p] >= n
    &&& forall|p2: int| 0 <= p2 < p ==> t[p2] < n
}

/// The verdict on the target qubits of an operation on `n` qubits: the
/// first repeated qubit, else the first qubit out of range, else fine.
pub open spec fn target_verdict(t: Seq<usize>, n: usize) -> Result<(), SimError> {
    if !all_distinct(t) {
        uniqueness(t)
    } else if exists|p: int| 0 <= p < t.len() && #[trigger] t[p] >= n {
        let p = choose|p: int| is_first_out_of_range(t, n, p);
        Err(SimError::QubitOutOfRange { qubit: t[p], num_qubits: n })
    } else {
        Ok(())
    }
}

/// The index of the basis state that differs from `i` in having qubit `t` set.
pub open spec fn partner(i: usize, t: usize) -> usize {
    with_bit(i, t, true)
}

/// `new` is a possible result of applying the 2x2 matrix `m` to qubit `t` of
/// the amplitudes `old`, each new amplitude computed by `dot2` (given two
/// pairs of factors, the sum of their products).
pub open spec fn mat2_applied<A, F: Fn(A, A, A, A) -> A>(
    old: Seq<A>,
    t: usize,
    m: Mat2<A>,
    dot2: F,
    new: Seq<A>,
) -> bool {
    &&& new.len() == old.len()
    &&& forall|i: usize|
        #![trigger old[i as int]]
        i < old.len() && !bit(i, t) ==> {
            &&& call_ensures(dot2, (m.m00, old[i as int], m.m01, old[partner(i, t) as int]), new[i as int])
            &&& call_ensures(
                dot2,
                (m.m10, old[i as int], m.m11, old[partner(i, t) as int]),
                new[partner(i, t) as int],
            )
        }
}

/// Row `row` of the `dim x dim` row-major matrix `m`.
pub open spec fn matrix_row<A>(m: Seq<A>, row: int, dim: int) -> Seq<A> {
    m.subrange(row * dim, row * dim + dim)
}

/// The amplitudes that row `extracted(out, t)` of an operation on targets
/// `t` combines into the new amplitude of `out`: that of `out` with the
/// targets set to spell `col`, for each column `col`.
pub open spec fn gathered<A>(old: Seq<A>, t: Seq<usize>, out: usize, dim: nat) -> Seq<A> {
    Seq::new(dim, |col: int| old[composed(cleared(out, t), t, col as usize) as int])
}

/// `v` is what `dot` may return for the new amplitude of index `out` under an
/// operation with matrix `m` on targets `t`: the row of `m` that the targets
/// spell in `out`, and the amplitudes of `old` gathered for `out`.
pub open spec fn amplitude_computed<A, D: Fn(&Vec<A>, &Vec<A>) -> A>(
    old: Seq<A>,
    m: Seq<A>,
    t: Seq<usize>,
    out: usize,
    dot: D,
    v: A,
) -> bool {
    let dim = dim_of(t.len());
    exists|row: Vec<A>, col: Vec<A>|
        #![trigger call_ensures(dot, (&row, &col), v)]
        row@ == matrix_row(m, extracted(out, t) as int, dim as int) && col@ == gathered(
            old,
            t,
            out,
            dim,
        ) && call_ensures(dot, (&row, &col), v)
}

/// `new` is a possible result of applying the operation `op` to the
/// amplitudes `old`: each new amplitude is what `dot` (given a row of the
/// matrix and a column of amplitudes, their dot product) returns on the
/// matrix row that the targets spell in its index and the amplitudes
/// gathered for it.
pub open spec fn operation_applied<A, D: Fn(&Vec<A>, &Vec<A>) -> A>(
    old: Seq<A>,
    op: OperationModel<A>,
    dot: D,
    new: Seq<A>,
) -> bool {
    &&& new.len() == old.len()
    &&& forall|out: usize|
        #![trigger new[out as int]]
        out < old.len() ==> amplitude_computed(old, op.matrix, op.targets, out, dot, new[out as int])
}

/// An operation computes the new amplitude of basis state `out` from the
/// row `r` of its matrix whose bits spell the target bits of `out` (target
/// `t[0]` the most significant bit of `r`) and the amplitudes of the basis
/// states that agree with `out` outside the targets, column `c` being the
/// one whose target bits spell `c`.
pub proof fn lemma_operation_reads_spelled_row<A, D: Fn(&Vec<A>, &Vec<A>) -> A>(
    old: Seq<A>,
    op: OperationModel<A>,
    dot: D,
    new: Seq<A>,
    out: usize,
    r: usize,
)
    requires
        operation_applied(old, op, dot, new),
        out < old.len(),
        qubits_in_word(op.targets),
        all_distinct(op.targets),
        op.targets.len() <= usize::BITS,
        r < pow2(op.targets.len()),
        forall|p: int|
            0 <= p < op.targets.len() ==> bit(r, (op.targets.len() - 1 - p) as usize) == bit(
                out,
                #[trigger] op.targets[p],
            ),
    ensures
        exists|row: Vec<A>, col: Vec<A>|
            #![trigger call_ensures(dot, (&row, &col), new[out as int])]
            {
                &&& row@ == op.matrix.subrange(
                    r * pow2(op.targets.len()),
                    r * pow2(op.targets.len()) + pow2(op.targets.len()),
                )
                &&& col@.len() == pow2(op.targets.len())
                &&& forall|c: usize, j: usize|
                    #![trigger col@[c as int], old[j as int]]
                    c < pow2(op.targets.len()) && (forall|p: int|
                        0 <= p < op.targets.len() ==> bit(j, #[trigger] op.targets[p]) == bit(
                            c,
                            (op.targets.len() - 1 - p) as usize,
                        )) && (forall|b: usize|
                        b < usize::BITS && !op.targets.contains(b) ==> #[trigger] bit(j, b)
                            == bit(out, b)) ==> col@[c as int] == old[j as int]
                &&& call_ensures(dot, (&row, &col), new[out as int])
            },
{
    let t = op.targets;
    let k = t.len();
    let dim = dim_of(k);
    let ext = extracted(out, t);
    assert(amplitude_computed(old, op.matrix, t, out, dot, new[out as int]));
    lemma_extracted_bits(out, t);
    lemma_below_pow2_bits(r, k);
    assert forall|kk: usize| kk < usize::BITS implies bit(r, kk) == bit(ext, kk) by {
        if kk < k {
            let p = k - 1 - kk;
            assert(bit(r, (k - 1 - p) as usize) == bit(out, t[p]));
        }
    }
    lemma_bits_ext(r, ext);
    let (row, col) = choose|row: Vec<A>, col: Vec<A>|
        row@ == matrix_row(op.matrix, ext as int, dim as int) && col@ == gathered(old, t, out, dim)
            && call_ensures(dot, (&row, &col), new[out as int]);
    let base = cleared(out, t);
    assert forall|c: usize, j: usize|
        #![trigger col@[c as int], old[j as int]]
        c < pow2(k) && (forall|p: int|
            0 <= p < k ==> bit(j, #[trigger] t[p]) == bit(c, (k - 1 - p) as usize)) && (forall|
            b: usize,
        | b < usize::BITS && !t.contains(b) ==> #[trigger] bit(j, b) == bit(out, b)) implies col@[c as int]
        == old[j as int] by {
        let cj = composed(base, t, c);
        lemma_composed_bits(base, t, c);
        lemma_cleared_bits(out, t);
        assert forall|b: usize| b < usize::BITS implies bit(j, b) == bit(cj, b) by {
            if t.contains(b) {
                let p = choose|p: int| 0 <= p < t.len() && t[p] == b;
                assert(bit(j, t[p]) == bit(c, (k - 1 - p) as usize));
                assert(bit(cj, t[p]) == bit(c, (t.len() - 1 - p) as usize));
            } else {
                assert(bit(base, b) == (bit(out, b) && !t.contains(b)));
            }
        }
        lemma_bits_ext(j, cj);
        assert(col@[c as int] == old[cj as int]);
    }
}

/// `new` is a possible collapse of `old` onto the value `one` of qubit `q`:
/// the amplitudes of the basis states that agree are passed through
/// `rescale` with `scale`, the others become `zero`.
pub open spec fn collapsed<A, S, R: Fn(A, S) -> A>(
    old: Seq<A>,
    q: usize,
    one: bool,
    scale: S,
    rescale: R,
    zero: A,
    new: Seq<A>,
) -> bool {
    &&& new.len() == old.len()
    &&& forall|i: usize|
        #![trigger new[i as int]]
        i < old.len() ==> if bit(i, q) == one {
            call_ensures(rescale, (old[i as int], scale), new[i as int])
        } else {
            new[i as int] == zero
        }
}

/// The arithmetic of a measurement: the weight (probability) of an
/// amplitude, the sum of two weights and the weight to start a sum from;
/// the decision that, given the summed weight of the basis states with the
/// measured qubit set, gives the observed value and a scale; the rescaling
/// of a kept amplitude by the scale; and the zero amplitude.
pub struct Measurement<A, W, G, P, O, R> {
    pub weigh: G,
    pub accumulate: P,
    pub no_weight: W,
    pub decide: O,
    pub rescale: R,
    pub zero: A,
}

/// Step `i` of summing the weights of the amplitudes `old` whose index has
/// bit `q` set: for such an index, `ws[i]` is a weight of `old[i]` and
/// `ps[i + 1]` the sum of `ps[i]` and it; for another, `ps[i + 1]` is `ps[i]`.
pub open spec fn weight_step<A, W, G: Fn(A) -> W, P: Fn(W, W) -> W>(
    old: Seq<A>,
    q: usize,
    weigh: G,
    accumulate: P,
    ws: Seq<W>,
    ps: Seq<W>,
    i: int,
) -> bool {
    if bit(i as usize, q) {
        &&& call_ensures(weigh, (old[i],), ws[i])
        &&& call_ensures(accumulate, (ps[i], ws[i]), ps[i + 1])
    } else {
        ps[i + 1] == ps[i]
    }
}

/// `ps` are possible partial sums, from `no_weight` and in the order of the
/// indices, of the weights of the amplitudes `old` whose index has bit `q`
/// set; `ps.last()` is the whole sum.
pub open spec fn weights_summed<A, W, G: Fn(A) -> W, P: Fn(W, W) -> W>(
    old: Seq<A>,
    q: usize,
    weigh: G,
    accumulate: P,
    no_weight: W,
    ws: Seq<W>,
    ps: Seq<W>,
) -> bool {
    &&& ws.len() == old.len()
    &&& ps.len() == old.len() + 1
    &&& ps[0] == no_weight
    &&& forall|i: int| 0 <= i < old.len() ==> #[trigger] weight_step(old, q, weigh, accumulate, ws, ps, i)
}

/// A measurement with outcome `one` leaves zero in every basis state whose
/// qubit `q` differs from the outcome, and a rescaling of the old amplitude
/// in every other basis state.
pub proof fn lemma_measurement_collapses<A, W, S, G: Fn(A) -> W, P: Fn(W, W) -> W, O: Fn(W) -> (
    bool,
    S,
), R: Fn(A, S) -> A>(old: Seq<A>, q: usize, one: bool, m: Measurement<A, W, G, P, O, R>, new: Seq<A>)
    requires
        measured(old, q, one, m, new),
    ensures
        new.len() == old.len(),
        forall|i: usize|
            i < old.len() && (((i >> q) & 1usize) == 1usize) != one ==> #[trigger] new[i as int]
                == m.zero,
        forall|i: usize|
            i < old.len() && (((i >> q) & 1usize) == 1usize) == one ==> exists|s: S|
                #[trigger] call_ensures(m.rescale, (old[i as int], s), new[i as int]),
{
    let (ws, ps, scale) = choose|ws: Seq<W>, ps: Seq<W>, scale: S|
        weights_summed(old, q, m.weigh, m.accumulate, m.no_weight, ws, ps) && call_ensures(
            m.decide,
            (ps.last(),),
            (one, scale),
        ) && collapsed(old, q, one, scale, m.rescale, m.zero, new);
    assert forall|i: usize|
        i < old.len() && (((i >> q) & 1usize) == 1usize) == one implies exists|s: S|
            #[trigger] call_ensures(m.rescale, (old[i as int], s), new[i as int]) by {
        assert(new[i as int] == new[i as int]);
        assert(call_ensures(m.rescale, (old[i as int], scale), new[i as int]));
    }
}

/// The pair of basis states `i` and `i + 2^t` of a 2x2 update on qubit `t`.
proof fn lemma_mat2_pair_at<A, F: Fn(A, A, A, A) -> A>(
    old: Seq<A>,
    n: usize,
    t: usize,
    m: Mat2<A>,
    dot2: F,
    new: Seq<A>,
    i: usize,
)
    requires
        t < n < usize::BITS,
        old.len() == pow2(n as nat),
        mat2_applied(old, t, m, dot2, new),
        i < old.len(),
        (i >> t) & 1usize == 0usize,
    ensures
        i + pow2(t as nat) < old.len(),
        call_ensures(dot2, (m.m00, old[i as int], m.m01, old[i + pow2(t as nat)]), new[i as int]),
        call_ensures(
            dot2,
            (m.m10, old[i as int], m.m11, old[i + pow2(t as nat)]),
            new[i + pow2(t as nat)],
        ),
{
    lemma_partner(i, t, n);
    assert(old[i as int] == old[i as int]);
    assert(partner(i, t) == i + pow2(t as nat));
}

/// A 2x2 update on qubit `t` pairs each basis state `i` with the qubit clear
/// with `i + 2^t`: the new amplitude of `i` is `dot2` of the first row of
/// the matrix with the old pair, and that of `i + 2^t` is `dot2` of the
/// second row with the old pair.
pub proof fn lemma_mat2_pairs<A, F: Fn(A, A, A, A) -> A>(
    old: Seq<A>,
    n: usize,
    t: usize,
    m: Mat2<A>,
    dot2: F,
    new: Seq<A>,
)
    requires
        t < n < usize::BITS,
        old.len() == pow2(n as nat),
        mat2_applied(old, t, m, dot2, new),
    ensures
        new.len() == old.len(),
        forall|i: usize|
            #![trigger i >> t]
            i < old.len() && (i >> t) & 1usize == 0usize ==> {
                &&& i + pow2(t as nat) < old.len()
                &&& call_ensures(
                    dot2,
                    (m.m00, old[i as int], m.m01, old[i + pow2(t as nat)]),
                    new[i as int],
                )
                &&& call_ensures(
                    dot2,
                    (m.m10, old[i as int], m.m11, old[i + pow2(t as nat)]),
                    new[i + pow2(t as nat)],
                )
            },
{
    assert forall|i: usize|
        #![trigger i >> t]
        i < old.len() && (i >> t) & 1usize == 0usize implies {
            &&& i + pow2(t as nat) < old.len()
            &&& call_ensures(
                dot2,
                (m.m00, old[i as int], m.m01, old[i + pow2(t as nat)]),
                new[i as int],
            )
            &&& call_ensures(
                dot2,
                (m.m10, old[i as int], m.m11, old[i + pow2(t as nat)]),
                new[i + pow2(t as nat)],
            )
        } by {
        lemma_mat2_pair_at(old, n, t, m, dot2, new, i);
    }
}

/// The weight that a measurement of qubit `q` decides on is summed over
/// exactly the basis states with the qubit set: in index order, each index
/// whose bit `q` is set adds the weight of its amplitude, and every other
/// index leaves the sum as it was.
pub proof fn lemma_weights_of_set_half<A, W, G: Fn(A) -> W, P: Fn(W, W) -> W>(
    old: Seq<A>,
    q: usize,
    weigh: G,
    accumulate: P,
    no_weight: W,
    ws: Seq<W>,
    ps: Seq<W>,
)
    requires
        weights_summed(old, q, weigh, accumulate, no_weight, ws, ps),
    ensures
        ps.len() == old.len() + 1,
        ps[0] == no_weight,
        forall|i: int|
            #![trigger ws[i]]
            0 <= i < old.len() ==> if ((i as usize) >> q) & 1usize == 1usize {
                call_ensures(weigh, (old[i],), ws[i]) && call_ensures(
                    accumulate,
                    (ps[i], ws[i]),
                    ps[i + 1],
                )
            } else {
                ps[i + 1] == ps[i]
            },
{
    assert forall|i: int| #![trigger ws[i]] 0 <= i < old.len() implies if ((i as usize) >> q) & 1usize
        == 1usize {
        call_ensures(weigh, (old[i],), ws[i]) && call_ensures(accumulate, (ps[i], ws[i]), ps[i + 1])
    } else {
        ps[i + 1] == ps[i]
    } by {
        assert(weight_step(old, q, weigh, accumulate, ws, ps, i));
    }
}

/// `new` is a possible result of measuring qubit `q` of `old` with outcome
/// `one`: the weights of the amplitudes with the qubit set are summed, the
/// decision on that sum may have answered `one` and a scale, and `new` is
/// the collapse with that scale.
pub open spec fn measured<A, W, S, G: Fn(A) -> W, P: Fn(W, W) -> W, O: Fn(W) -> (bool, S), R: Fn(
    A,
    S,
) -> A>(old: Seq<A>, q: usize, one: bool, m: Measurement<A, W, G, P, O, R>, new: Seq<A>) -> bool {
    exists|ws: Seq<W>, ps: Seq<W>, scale: S|
        #![trigger weights_summed(old, q, m.weigh, m.accumulate, m.no_weight, ws, ps), call_ensures(m.decide, (ps.last(),), (one, scale))]
        weights_summed(old, q, m.weigh, m.accumulate, m.no_weight, ws, ps) && call_ensures(
            m.decide,
            (ps.last(),),
            (one, scale),
        ) && collapsed(old, q, one, scale, m.rescale, m.zero, new)
}

/// The bit flip (Pauli X), with `unit` the amplitude one.
pub open spec fn bit_flip<A>(zero: A, unit: A) -> Mat2<A> {
    Mat2 { m00: zero, m01: unit, m10: unit, m11: zero }
}

/// `new` is a possible result of resetting qubit `q` of `old`: a
/// measurement, followed by the bit flip on the qubit when the outcome was
/// one, with `unit` the amplitude one.
pub open spec fn reset_done<A, W, S, F: Fn(A, A, A, A) -> A, G: Fn(A) -> W, P: Fn(W, W) -> W, O: Fn(
    W,
) -> (bool, S), R: Fn(A, S) -> A>(
    old: Seq<A>,
    q: usize,
    m: Measurement<A, W, G, P, O, R>,
    unit: A,
    dot2: F,
    new: Seq<A>,
) -> bool {
    exists|one: bool, mid: Seq<A>|
        #![trigger measured(old, q, one, m, mid)]
        measured(old, q, one, m, mid) && if one {
            mat2_applied(mid, q, bit_flip(m.zero, unit), dot2, new)
        } else {
            new == mid
        }
}

/// `dot` can be called on any two vectors.
pub open spec fn total_dot<A, D: Fn(&Vec<A>, &Vec<A>) -> A>(dot: D) -> bool {
    forall|r: &Vec<A>, c: &Vec<A>| #[trigger] call_requires(dot, (r, c))
}

/// The arithmetic of a measurement can be asked of anything.
pub open spec fn total_measure<A, W, S, G: Fn(A) -> W, P: Fn(W, W) -> W, O: Fn(W) -> (bool, S), R: Fn(
    A,
    S,
) -> A>(m: Measurement<A, W, G, P, O, R>) -> bool {
    &&& forall|a: A| #[trigger] call_requires(m.weigh, (a,))
    &&& forall|v: W, w: W| #[trigger] call_requires(m.accumulate, (v, w))
    &&& forall|w: W| #[trigger] call_requires(m.decide, (w,))
    &&& forall|a: A, s: S| #[trigger] call_requires(m.rescale, (a, s))
}

// ---------------------------------------------------------------------------
// Bits of indices below a power of two.
// ---------------------------------------------------------------------------
/// Facts about setting qubit `t` of an index below `2^n` whose qubit `t` is clear.
pub proof fn lemma_partner(i: usize, t: usize, n: usize)
    requires
        t < n < usize::BITS,
        i < pow2(n as nat),
    ensures
        (i & (1usize << t) == 0usize) == !bit(i, t),
        !bit(i, t) ==> partner(i, t) == i + pow2(t as nat),
        !bit(i, t) ==> partner(i, t) < pow2(n as nat),
        !bit(i, t) ==> bit(partner(i, t), t),
        !bit(i, t) ==> partner(i, t) & !(1usize << t) == i,
{
    lemma_usize_pow2_no_overflow(n as nat);
    lemma_usize_pow2_no_overflow(t as nat);
    lemma_usize_shl_is_mul(1, n);
    lemma_usize_shl_is_mul(1, t);
    assert((i & (1usize << t) == 0usize) == !bit(i, t)) by (bit_vector)
        requires
            t < usize::BITS,
    ;
    assert(!bit(i, t) ==> (i | (1usize << t)) == i + (1usize << t) && (i | (1usize << t)) < (
    1usize << n) && bit(i | (1usize << t), t) && ((i | (1usize << t)) & !(1usize << t)) == i)
        by (bit_vector)
        requires
            t < n,
            n < usize::BITS,
            i < (1usize << n),
    ;
}

/// Two indices with qubit `t` clear have the same partner only if equal.
proof fn lemma_partner_injective(i1: usize, i2: usize, t: usize)
    requires
        t < usize::BITS,
        !bit(i1, t),
        !bit(i2, t),
        partner(i1, t) == partner(i2, t),
    ensures
        i1 == i2,
{
    assert(i1 == i2) by (bit_vector)
        requires
            t < usize::BITS,
            (i1 >> t) & 1usize != 1usize,
            (i2 >> t) & 1usize != 1usize,
            (i1 | (1usize << t)) == (i2 | (1usize << t)),
    ;
}

/// The index that composes a sub-index of targets below `n` into an index
/// below `2^n` is below `2^n` too.
pub proof fn lemma_composed_in_range(out: usize, t: Seq<usize>, sub: usize, n: usize)
    requires
        qubits_in_word(t),
        all_distinct(t),
        t.len() <= usize::BITS,
        n < usize::BITS,
        forall|p: int| 0 <= p < t.len() ==> #[trigger] t[p] < n,
        out < pow2(n as nat),
    ensures
        composed(cleared(out, t), t, sub) < pow2(n as nat),
{
    let c = cleared(out, t);
    let r = composed(c, t, sub);
    lemma_cleared_bits(out, t);
    lemma_composed_bits(c, t, sub);
    lemma_below_pow2_bits(out, n as nat);
    assert forall|k: usize| n <= k < usize::BITS implies !#[trigger] bit(r, k) by {
        if t.contains(k) {
            let p = choose|p: int| 0 <= p < t.len() && t[p] == k;
            assert(t[p] < n);
        }
    }
    lemma_bits_below_pow2(r, n as nat);
}

// ---------------------------------------------------------------------------
// Laws.
// ---------------------------------------------------------------------------
/// Every basis state with qubit `t` set is the partner of the one with qubit
/// `t` clear and the other qubits the same, which comes before it; so the
/// 2x2 update of `mat2_applied` gives every amplitude a value.
pub proof fn lemma_cleared_partner(j: usize, t: usize)
    requires
        t < usize::BITS,
        bit(j, t),
    ensures
        !bit(j & !(1usize << t), t),
        partner(j & !(1usize << t), t) == j,
        (j & !(1usize << t)) < j,
{
    assert(!bit(j & !(1usize << t), t) && ((j & !(1usize << t)) | (1usize << t)) == j && (j & !(
    1usize << t)) < j) by (bit_vector)
        requires
            t < usize::BITS,
            (j >> t) & 1usize == 1usize,
    ;
}

/// Among the amplitudes gathered for an index, the one at the column that
/// the targets spell in the index is the index's own.
pub proof fn lemma_gathered_own_amplitude<A>(old: Seq<A>, t: Seq<usize>, out: usize)
    requires
        qubits_in_word(t),
        all_distinct(t),
        t.len() <= usize::BITS,
    ensures
        extracted(out, t) < dim_of(t.len()),
        gathered(old, t, out, dim_of(t.len()))[extracted(out, t) as int] == old[out as int],
{
    lemma_extracted_bound(out, t);
    crate::index::lemma_compose_clear_extract(out, t);
}

/// Two indices that agree outside the targets gather the same amplitudes:
/// an operation acts on each block of basis states that differ only in the
/// targets on its own.
pub proof fn lemma_gathered_blockwise<A>(old: Seq<A>, t: Seq<usize>, o1: usize, o2: usize, dim: nat)
    requires
        cleared(o1, t) == cleared(o2, t),
    ensures
        gathered(old, t, o1, dim) == gathered(old, t, o2, dim),
{
    assert(gathered(old, t, o1, dim) =~= gathered(old, t, o2, dim));
}

/// A reset leaves every basis state with the qubit set at zero, when
/// `dot2(unit, a, zero, b)` is `a`, as `1 * a + 0 * b` is.
pub proof fn lemma_reset_clears_qubit<A, W, S, F: Fn(A, A, A, A) -> A, G: Fn(A) -> W, P: Fn(
    W,
    W,
) -> W, O: Fn(W) -> (bool, S), R: Fn(A, S) -> A>(
    old: Seq<A>,
    q: usize,
    m: Measurement<A, W, G, P, O, R>,
    unit: A,
    dot2: F,
    new: Seq<A>,
)
    requires
        q < usize::BITS,
        reset_done(old, q, m, unit, dot2, new),
        forall|a: A, b: A, r: A| #[trigger] call_ensures(dot2, (unit, a, m.zero, b), r) ==> r == a,
    ensures
        new.len() == old.len(),
        forall|i: usize| i < new.len() && bit(i, q) ==> #[trigger] new[i as int] == m.zero,
{
    let zero = m.zero;
    let x = bit_flip(m.zero, unit);
    let (one, mid) = choose|one: bool, mid: Seq<A>|
        measured(old, q, one, m, mid) && if one {
            mat2_applied(mid, q, x, dot2, new)
        } else {
            new == mid
        };
    assert(collapsed_any(old, q, one, m.rescale, zero, mid));
    assert forall|i: usize| i < new.len() && bit(i, q) implies #[trigger] new[i as int] == zero by {
        if one {
            lemma_cleared_partner(i, q);
            let i0 = i & !(1usize << q);
            // The flip moved the amplitude of `i0`, zeroed by the collapse, to `i`.
            assert(mid[i0 as int] == zero);
        } else {
            assert(mid[i as int] == zero);
        }
    }
}

/// Some scale makes `mid` the collapse of `old` onto `one`.
spec fn collapsed_any<A, S, R: Fn(A, S) -> A>(
    old: Seq<A>,
    q: usize,
    one: bool,
    rescale: R,
    zero: A,
    mid: Seq<A>,
) -> bool {
    &&& mid.len() == old.len()
    &&& forall|i: usize| i < old.len() && bit(i, q) != one ==> #[trigger] mid[i as int] == zero
}

impl<A: Copy> StateVector<A> {
    /// The register of `num_qubits` qubits in the basis state of all
    /// qubits clear: `one` for index 0 and `zero` elsewhere. Like a shift by
    /// `num_qubits as u32`, it takes the count modulo `2^32`.
    pub fn new(num_qubits: usize, zero: A, one: A) -> (s: Self)
        requires
            (num_qubits as u32) < usize::BITS,
        ensures
            s.num_qubits == num_qubits,
            s.amps@.len() == dim_of((num_qubits as u32) as nat),
            s.amps@[0] == one,
            forall|i: int| 0 < i < s.amps@.len() ==> #[trigger] s.amps@[i] == zero,
    {
        let dim = match matrix_dim(num_qubits) {
            Ok(d) => d,
            Err(_) => 1,
        };
        proof {
            lemma_pow2_pos((num_qubits as u32) as nat);
        }
        let mut amps: Vec<A> = Vec::new();
        let mut i: usize = 0;
        while i < dim
            invariant
                i <= dim,
                amps@.len() == i,
                i > 0 ==> amps@[0] == one,
                forall|j: int| 0 < j < i ==> #[trigger] amps@[j] == zero,
            decreases dim - i,
        {
            if i == 0 {
                amps.push(one);
            } else {
                amps.push(zero);
            }
            i = i + 1;
        }
        StateVector { num_qubits, amps }
    }

    /// Refuses target qubits of which one occurs twice or one is not a
    /// qubit of this register, with the first such qubit.
    pub fn validate_targets(&self, targets: &[usize]) -> (r: Result<(), SimError>)
        ensures
            r == target_verdict(targets@, self.num_qubits),
    {
        match ensure_unique_qubits(targets) {
            Ok(()) => {},
            Err(e) => return Err(e),
        }
        let mut i: usize = 0;
        while i < targets.len()
            invariant
                i <= targets@.len(),
                all_distinct(targets@),
                forall|p: int| 0 <= p < i ==> targets@[p] < self.num_qubits,
            decreases targets@.len() - i,
        {
            if targets[i] >= self.num_qubits {
                proof {
                    assert(is_first_out_of_range(targets@, self.num_qubits, i as int));
                    let p = choose|p: int| is_first_out_of_range(targets@, self.num_qubits, p);
                    if p < i {
                        assert(targets@[p] < self.num_qubits);
                    }
                    if i < p {
                        assert(targets@[i as int] < self.num_qubits);
                    }
                }
                return Err(
                    SimError::QubitOutOfRange { qubit: targets[i], num_qubits: self.num_qubits },
                );
            }
            i = i + 1;
        }
        Ok(())
    }

    /// Applies the 2x2 matrix `matrix` to qubit `target`, each new amplitude
    /// computed by `dot2` (given two pairs of factors, the sum of their products).
    pub fn apply_mat2<F: Fn(A, A, A, A) -> A>(&mut self, target: usize, matrix: &Mat2<A>, dot2: &F)
        requires
            old(self).wf(),
            target < old(self).num_qubits,
            total4(*dot2),
        ensures
            final(self).num_qubits == old(self).num_qubits,
            mat2_applied(old(self).amps@, target, *matrix, *dot2, final(self).amps@),
    {
        let ghost before = self.amps@;
        let ghost nq = self.num_qubits;
        let stride = 1usize << target;
        let n = self.amps.len();
        let mut idx: usize = 0;
        while idx < n
            invariant
                n == before.len(),
                self.amps@.len() == n,
                nq == self.num_qubits,
                nq < usize::BITS,
                target < nq,
                n == dim_of(nq as nat),
                stride == 1usize << target,
                idx <= n,
                total4(*dot2),
                forall|i: usize|
                    #![trigger before[i as int]]
                    i < n && !bit(i, target) ==> if i < idx {
                        &&& call_ensures(
                            *dot2,
                            (matrix.m00, before[i as int], matrix.m01, before[partner(i, target) as int]),
                            self.amps@[i as int],
                        )
                        &&& call_ensures(
                            *dot2,
                            (matrix.m10, before[i as int], matrix.m11, before[partner(i, target) as int]),
                            self.amps@[partner(i, target) as int],
                        )
                    } else {
                        &&& self.amps@[i as int] == before[i as int]
                        &&& self.amps@[partner(i, target) as int] == before[partner(
                            i,
                            target,
                        ) as int]
                    },
            decreases n - idx,
        {
            proof {
                lemma_partner(idx, target, nq);
            }
            if idx & stride == 0 {
                let other = idx | stride;
                let a = self.amps[idx];
                let b = self.amps[other];
                let ghost mid = self.amps@;
                let lo = dot2(matrix.m00, a, matrix.m01, b);
                let hi = dot2(matrix.m10, a, matrix.m11, b);
                self.amps.set(idx, lo);
                self.amps.set(other, hi);
                proof {
                    assert forall|i: usize|
                        #![trigger before[i as int]]
                        i < n && !bit(i, target) && i != idx implies self.amps@[i as int] == mid[i as int]
                            && self.amps@[partner(i, target) as int] == mid[partner(i, target) as int] by {
                        lemma_partner(i, target, nq);
                        if partner(i, target) == partner(idx, target) {
                            lemma_partner_injective(i, idx, target);
                        }
                    }
                }
            }
            idx = idx + 1;
        }
    }

    /// Applies the operation `op`, after refusing its targets as
    /// `validate_targets` does. A single-qubit operation goes through
    /// `apply_mat2` with `dot2`; any other computes each new amplitude with
    /// `dot` (given a row of the matrix and a column of amplitudes, their
    /// dot product).
    pub fn apply_operation<F: Fn(A, A, A, A) -> A, D: Fn(&Vec<A>, &Vec<A>) -> A>(
        &mut self,
        op: &Operation<A>,
        dot2: &F,
        dot: &D,
    ) -> (r: Result<(), SimError>)
        requires
            old(self).wf(),
            total4(*dot2),
            total_dot(*dot),
            target_verdict(op.targets@, old(self).num_qubits) is Ok && !op@.is_single_qubit()
                ==> op.matrix@.len() >= dim_of(op.targets@.len()) * dim_of(op.targets@.len()),
        ensures
            final(self).num_qubits == old(self).num_qubits,
            match target_verdict(op.targets@, old(self).num_qubits) {
                Err(e) => r == Err::<(), SimError>(e) && final(self).amps@ == old(self).amps@,
                Ok(()) => r == Ok::<(), SimError>(()) && if op@.is_single_qubit() {
                    mat2_applied(
                        old(self).amps@,
                        op.targets@[0],
                        op@.mat2(),
                        *dot2,
                        final(self).amps@,
                    )
                } else {
                    operation_applied(old(self).amps@, op@, *dot, final(self).amps@)
                },
            },
    {
        match self.validate_targets(op.targets.as_slice()) {
            Ok(()) => {},
            Err(e) => return Err(e),
        }
        let ghost nq = self.num_qubits;
        let ghost t = op.targets@;
        proof {
            assert forall|p: int| 0 <= p < t.len() implies #[trigger] t[p] < nq by {
                if !(t[p] < nq) {
                    assert(exists|p: int| 0 <= p < t.len() && #[trigger] t[p] >= nq);
                }
            }
            assert(qubits_in_word(t));
            lemma_distinct_in_range_len(t, nq);
        }
        if op.is_single_qubit() {
            let matrix = Mat2 {
                m00: op.matrix[0],
                m01: op.matrix[1],
                m10: op.matrix[2],
                m11: op.matrix[3],
            };
            self.apply_mat2(op.targets[0], &matrix, dot2);
            return Ok(());
        }
        let k = op.targets.len();
        let dim = match matrix_dim(k) {
            Ok(d) => d,
            Err(e) => return Err(e),
        };
        proof {
            let ku = k;
            assert((ku as u32) as nat == ku) by (bit_vector)
                requires
                    ku < 64,
            ;
            assert(dim == dim_of(t.len()));
            lemma_pow2_pos(t.len());
        }
        proof {
            assert(dim * dim <= op.matrix.len());
        }
        let old_amps = copy_vec(&self.amps);
        let n = old_amps.len();
        let targets = op.targets.as_slice();
        let mut new_amps: Vec<A> = Vec::new();
        let mut out: usize = 0;
        while out < n
            invariant
                n == old_amps@.len(),
                old_amps@ == self.amps@,
                n == dim_of(nq as nat),
                nq < usize::BITS,
                targets@ == t,
                t == op.targets@,
                qubits_in_word(t),
                all_distinct(t),
                t.len() <= nq,
                forall|p: int| 0 <= p < t.len() ==> #[trigger] t[p] < nq,
                dim == dim_of(t.len()),
                dim > 0,
                op.matrix@.len() >= dim * dim,
                dim * dim <= usize::MAX,
                total_dot(*dot),
                out <= n,
                new_amps@.len() == out,
                forall|o: usize|
                    #![trigger new_amps@[o as int]]
                    o < out ==> amplitude_computed(old_amps@, op.matrix@, t, o, *dot, new_amps@[o as int]),
            decreases n - out,
        {
            let row = extract_sub_index(out, targets);
            let base = clear_target_bits(out, targets);
            proof {
                assert(row * dim + dim <= dim * dim) by (nonlinear_arith)
                    requires
                        row < dim,
                ;
            }
            let mut col_vals: Vec<A> = Vec::new();
            let mut row_vals: Vec<A> = Vec::new();
            let mut col: usize = 0;
            while col < dim
                invariant
                    n == old_amps@.len(),
                    n == dim_of(nq as nat),
                    nq < usize::BITS,
                    targets@ == t,
                    qubits_in_word(t),
                    all_distinct(t),
                    t.len() <= nq,
                    forall|p: int| 0 <= p < t.len() ==> #[trigger] t[p] < nq,
                    out < n,
                    row == extracted(out, t),
                    row < dim,
                    base == cleared(out, t),
                    dim == dim_of(t.len()),
                    op.matrix@.len() >= dim * dim,
                    dim * dim <= usize::MAX,
                    row * dim + dim <= dim * dim,
                    col <= dim,
                    col_vals@ =~= gathered(old_amps@, t, out, dim as nat).take(col as int),
                    row_vals@ =~= matrix_row(op.matrix@, row as int, dim as int).take(col as int),
                decreases dim - col,
            {
                let in_index = compose_index(base, targets, col);
                proof {
                    lemma_composed_in_range(out, t, col, nq);
                    lemma_flat_bound(row as int, col as int, dim as int, dim as int);
                }
                col_vals.push(old_amps[in_index]);
                row_vals.push(op.matrix[row * dim + col]);
                col = col + 1;
            }
            proof {
                assert(gathered(old_amps@, t, out, dim as nat).take(dim as int) =~= gathered(
                    old_amps@,
                    t,
                    out,
                    dim as nat,
                ));
                assert(matrix_row(op.matrix@, row as int, dim as int).take(dim as int) =~= matrix_row(
                    op.matrix@,
                    row as int,
                    dim as int,
                ));
                assert(col_vals@ =~= gathered(old_amps@, t, out, dim as nat));
                assert(row_vals@ =~= matrix_row(op.matrix@, row as int, dim as int));
            }
            let value = dot(&row_vals, &col_vals);
            let ghost prev = new_amps@;
            new_amps.push(value);
            proof {
                assert forall|o: usize|
                    #![trigger new_amps@[o as int]]
                    o < out + 1 implies amplitude_computed(old_amps@, op.matrix@, t, o, *dot, new_amps@[o as int]) by {
                    if o == out {
                        assert(new_amps@[o as int] == value);
                        assert(call_ensures(*dot, (&row_vals, &col_vals), new_amps@[o as int]));
                    } else {
                        assert(new_amps@[o as int] == prev[o as int]);
                    }
                }
            }
            out = out + 1;
        }
        self.amps = new_amps;
        Ok(())
    }

    /// Measures qubit `qubit`: sums, in the order of the indices, the
    /// weights of the amplitudes whose index has the qubit set; the decision
    /// on that sum gives the observed value and a scale; the amplitudes of
    /// the basis states that agree with the value are rescaled by the scale
    /// and the others become zero. Returns the value, 0 or 1.
    pub fn measure_qubit<
        W: Copy,
        S: Copy,
        G: Fn(A) -> W,
        P: Fn(W, W) -> W,
        O: Fn(W) -> (bool, S),
        R: Fn(A, S) -> A,
    >(&mut self, qubit: usize, m: &Measurement<A, W, G, P, O, R>) -> (r: Result<u8, SimError>)
        requires
            old(self).wf(),
            total_measure(*m),
        ensures
            final(self).num_qubits == old(self).num_qubits,
            qubit >= old(self).num_qubits ==> r == Err::<u8, SimError>(
                SimError::QubitOutOfRange { qubit, num_qubits: old(self).num_qubits },
            ) && final(self).amps@ == old(self).amps@,
            qubit < old(self).num_qubits ==> (r matches Ok(v) && (v == 0 || v == 1) && measured(
                old(self).amps@,
                qubit,
                v == 1,
                *m,
                final(self).amps@,
            )),
    {
        let mut qs: Vec<usize> = Vec::new();
        qs.push(qubit);
        proof {
            assert(qs@ =~= seq![qubit]);
            lemma_one_target_verdict(qubit, self.num_qubits);
        }
        match self.validate_targets(qs.as_slice()) {
            Ok(()) => {},
            Err(e) => return Err(e),
        }
        let ghost before = self.amps@;
        let ghost nq = self.num_qubits;
        let stride = 1usize << qubit;
        let n = self.amps.len();
        let weigh = &m.weigh;
        let accumulate = &m.accumulate;
        let decide = &m.decide;
        let rescale = &m.rescale;
        // The weight of the basis states with the qubit set.
        let mut total = m.no_weight;
        let ghost mut ws: Seq<W> = Seq::empty();
        let ghost mut ps: Seq<W> = seq![m.no_weight];
        let mut idx: usize = 0;
        while idx < n
            invariant
                n == before.len(),
                self.amps@ == before,
                nq == self.num_qubits,
                nq < usize::BITS,
                qubit < nq,
                n == dim_of(nq as nat),
                stride == 1usize << qubit,
                idx <= n,
                total_measure(*m),
                *weigh == m.weigh,
                *accumulate == m.accumulate,
                *rescale == m.rescale,
                ws.len() == idx,
                ps.len() == idx + 1,
                ps[0] == m.no_weight,
                ps.last() == total,
                forall|i: int| 0 <= i < idx ==> #[trigger] weight_step(before, qubit, *weigh, *accumulate, ws, ps, i),
            decreases n - idx,
        {
            proof {
                lemma_partner(idx, qubit, nq);
            }
            let ghost old_ws = ws;
            let ghost old_ps = ps;
            if idx & stride != 0 {
                let w = weigh(self.amps[idx]);
                total = accumulate(total, w);
                proof {
                    ws = ws.push(w);
                }
            } else {
                proof {
                    ws = ws.push(m.no_weight);
                }
            }
            proof {
                ps = ps.push(total);
                assert forall|i: int| 0 <= i < idx + 1 implies #[trigger] weight_step(
                    before,
                    qubit,
                    *weigh,
                    *accumulate,
                    ws,
                    ps,
                    i,
                ) by {
                    if i < idx {
                        assert(weight_step(before, qubit, *weigh, *accumulate, old_ws, old_ps, i));
                        assert(ws[i] == old_ws[i]);
                        assert(ps[i] == old_ps[i]);
                        assert(ps[i + 1] == old_ps[i + 1]);
                    } else {
                        assert(ps[i] == old_ps.last());
                    }
                }
            }
            idx = idx + 1;
        }
        proof {
            assert(weights_summed(before, qubit, *weigh, *accumulate, m.no_weight, ws, ps));
        }
        let (one, scale) = decide(total);
        let mut idx: usize = 0;
        while idx < n
            invariant
                n == before.len(),
                self.amps@.len() == n,
                nq == self.num_qubits,
                nq < usize::BITS,
                qubit < nq,
                n == dim_of(nq as nat),
                stride == 1usize << qubit,
                idx <= n,
                total_measure(*m),
                *weigh == m.weigh,
                *accumulate == m.accumulate,
                *rescale == m.rescale,
                forall|i: usize|
                    #![trigger self.amps@[i as int]]
                    i < n ==> if i < idx {
                        if bit(i, qubit) == one {
                            call_ensures(*rescale, (before[i as int], scale), self.amps@[i as int])
                        } else {
                            self.amps@[i as int] == m.zero
                        }
                    } else {
                        self.amps@[i as int] == before[i as int]
                    },
            decreases n - idx,
        {
            proof {
                lemma_partner(idx, qubit, nq);
            }
            let set = idx & stride != 0;
            if set == one {
                let a = self.amps[idx];
                let v = rescale(a, scale);
                self.amps.set(idx, v);
            } else {
                self.amps.set(idx, m.zero);
            }
            idx = idx + 1;
        }
        proof {
            assert(collapsed(before, qubit, one, scale, *rescale, m.zero, self.amps@));
            assert(call_ensures(m.decide, (ps.last(),), (one, scale)));
        }
        if one {
            Ok(1)
        } else {
            Ok(0)
        }
    }

    /// Resets qubit `qubit` to zero: measures it as `measure_qubit` does,
    /// then applies the bit flip to it with `dot2` when it was one, with
    /// `unit` the amplitude one.
    pub fn reset_qubit<
        W: Copy,
        S: Copy,
        F: Fn(A, A, A, A) -> A,
        G: Fn(A) -> W,
        P: Fn(W, W) -> W,
        O: Fn(W) -> (bool, S),
        R: Fn(A, S) -> A,
    >(&mut self, qubit: usize, m: &Measurement<A, W, G, P, O, R>, unit: A, dot2: &F) -> (r:
        Result<(), SimError>)
        requires
            old(self).wf(),
            total_measure(*m),
            total4(*dot2),
        ensures
            final(self).num_qubits == old(self).num_qubits,
            qubit >= old(self).num_qubits ==> r == Err::<(), SimError>(
                SimError::QubitOutOfRange { qubit, num_qubits: old(self).num_qubits },
            ) && final(self).amps@ == old(self).amps@,
            qubit < old(self).num_qubits ==> r == Ok::<(), SimError>(()) && reset_done(
                old(self).amps@,
                qubit,
                *m,
                unit,
                *dot2,
                final(self).amps@,
            ),
    {
        let ghost before = self.amps@;
        let measured_value = match self.measure_qubit(qubit, m) {
            Ok(v) => v,
            Err(e) => return Err(e),
        };
        let ghost mid = self.amps@;
        if measured_value == 1 {
            let x = Mat2 { m00: m.zero, m01: unit, m10: unit, m11: m.zero };
            self.apply_mat2(qubit, &x, dot2);
        }
        proof {
            assert(measured(before, qubit, measured_value == 1, *m, mid));
        }
        Ok(())
    }
}

/// One qubit is refused exactly when it is out of range.
pub proof fn lemma_one_target_verdict(q: usize, n: usize)
    ensures
        target_verdict(seq![q], n) == if q < n {
            Ok::<(), SimError>(())
        } else {
            Err::<(), SimError>(SimError::QubitOutOfRange { qubit: q, num_qubits: n })
        },
{
    let t = seq![q];
    assert(all_distinct(t));
    if q >= n {
        assert(t[0] >= n);
        assert(is_first_out_of_range(t, n, 0));
        let p = choose|p: int| is_first_out_of_range(t, n, p);
        assert(p == 0);
    } else {
        assert(!(exists|p: int| 0 <= p < t.len() && #[trigger] t[p] >= n));
    }
}

/// Distinct qubits all below `n` are at most `n` of them.
proof fn lemma_distinct_in_range_len(t: Seq<usize>, n: usize)
    requires
        all_distinct(t),
        forall|p: int| 0 <= p < t.len() ==> #[trigger] t[p] < n,
    ensures
        t.len() <= n,
{
    let ti = t.map_values(|x: usize| x as int);
    assert forall|i: int, j: int| 0 <= i < ti.len() && 0 <= j < ti.len() && i != j implies ti[i]
        != ti[j] by {
        if i < j {
            assert(t[i] != t[j]);
        } else {
            assert(t[j] != t[i]);
        }
    }
    assert(ti.no_duplicates());
    ti.unique_seq_to_set();
    let range = vstd::set_lib::set_int_range(0, n as int);
    assert forall|x: int| ti.to_set().contains(x) implies range.contains(x) by {
        assert(ti.contains(x));
        let p = choose|p: int| 0 <= p < ti.len() && ti[p] == x;
        assert(t[p] < n);
    }
    vstd::set_lib::lemma_int_range(0, n as int);
    vstd::set_lib::lemma_len_subset(ti.to_set(), range);
}

} // verus!
