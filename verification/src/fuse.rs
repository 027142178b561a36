//! Fusion of each maximal run of single-qubit operations on one qubit into
//! one operation whose matrix is the product of the run's matrices.
use crate::gate::{Gate, GateModel, Operation, models};
use crate::matrix::{is_product, total4, Mat2};
use vstd::prelude::*;

verus! {

/// The qubit of a single-qubit operation.
pub open spec fn target_of<A>(g: GateModel<A>) -> usize {
    g->Operation_0.targets[0]
}

/// The 2x2 matrix of a single-qubit operation.
pub open spec fn mat2_of<A>(g: GateModel<A>) -> Mat2<A> {
    g->Operation_0.mat2()
}

/// The first position from `j` on that is not a single-qubit operation on `target`.
pub open spec fn run_end<A>(gs: Seq<GateModel<A>>, target: usize, j: int) -> int
    decreases gs.len() - j,
{
    if j < 0 || j >= gs.len() || !gs[j].is_single_qubit_op_on(target) {
        j
    } else {
        run_end(gs, target, j + 1)
    }
}

/// The end of the segment that starts at `s`: the maximal run of
/// single-qubit operations on the qubit of `gs[s]` when `gs[s]` is one, else
/// `gs[s]` alone.
pub open spec fn segment_end<A>(gs: Seq<GateModel<A>>, s: int) -> int {
    if gs[s].is_single_qubit_op() {
        run_end(gs, target_of(gs[s]), s + 1)
    } else {
        s + 1
    }
}

/// `ms` are possible partial products of the 2x2 matrices of the gates from
/// `s` to `e`: `ms[0]` is that of `gs[s]`, and each later one is the matrix
/// of the next gate times the one before, so that `ms.last()` is
/// `gs[e-1] * ... * gs[s+1] * gs[s]`.
pub open spec fn chain_products<A, F: Fn(A, A, A, A) -> A>(
    gs: Seq<GateModel<A>>,
    s: int,
    e: int,
    ms: Seq<Mat2<A>>,
    dot2: F,
) -> bool {
    &&& s < e
    &&& ms.len() == e - s
    &&& ms[0] == mat2_of(gs[s])
    &&& forall|k: int| 0 < k < ms.len() ==> is_product(mat2_of(gs[s + k]), ms[k - 1], #[trigger] ms[k], dot2)
}

/// `g` is what fusion makes of the segment from `s` to `e`.
pub open spec fn fused_segment<A, F: Fn(A, A, A, A) -> A>(
    gs: Seq<GateModel<A>>,
    s: int,
    e: int,
    g: GateModel<A>,
    dot2: F,
) -> bool {
    if gs[s].is_single_qubit_op() {
        &&& g is Operation
        &&& g->Operation_0.targets == seq![target_of(gs[s])]
        &&& exists|ms: Seq<Mat2<A>>|
            #[trigger] chain_products(gs, s, e, ms, dot2) && g->Operation_0.matrix == ms.last().entries()
    } else {
        g == gs[s]
    }
}

/// `out` is what fusion makes of the gates from position `i` on: one gate
/// per segment, in order.
pub open spec fn fused_from<A, F: Fn(A, A, A, A) -> A>(
    gs: Seq<GateModel<A>>,
    i: int,
    out: Seq<GateModel<A>>,
    dot2: F,
) -> bool
    decreases gs.len() - i,
{
    if i < 0 {
        false
    } else if i >= gs.len() {
        out.len() == 0
    } else {
        let e = segment_end(gs, i);
        if e <= i || e > gs.len() {
            false
        } else {
            &&& out.len() > 0
            &&& fused_segment(gs, i, e, out[0], dot2)
            &&& fused_from(gs, e, out.drop_first(), dot2)
        }
    }
}

/// A run that starts at `j` ends no earlier than `j` and no later than the end.
pub proof fn lemma_run_end_bounds<A>(gs: Seq<GateModel<A>>, target: usize, j: int)
    requires
        0 <= j <= gs.len(),
    ensures
        j <= run_end(gs, target, j) <= gs.len(),
        forall|k: int| j <= k < run_end(gs, target, j) ==> #[trigger] gs[k].is_single_qubit_op_on(target),
        run_end(gs, target, j) < gs.len() ==> !gs[run_end(gs, target, j)].is_single_qubit_op_on(target),
    decreases gs.len() - j,
{
    if j < gs.len() && gs[j].is_single_qubit_op_on(target) {
        lemma_run_end_bounds(gs, target, j + 1);
    }
}

/// What fusion makes of a segment is a single-qubit operation on
/// the segment's qubit exactly when the segment starts with one.
pub proof fn lemma_fused_segment_kind<A, F: Fn(A, A, A, A) -> A>(
    gs: Seq<GateModel<A>>,
    s: int,
    e: int,
    g: GateModel<A>,
    dot2: F,
)
    requires
        fused_segment(gs, s, e, g, dot2),
    ensures
        g.is_single_qubit_op() == gs[s].is_single_qubit_op(),
        g.is_single_qubit_op() ==> target_of(g) == target_of(gs[s]),
{
    if gs[s].is_single_qubit_op() {
        let ms = choose|ms: Seq<Mat2<A>>|
            #[trigger] chain_products(gs, s, e, ms, dot2) && g->Operation_0.matrix
                == ms.last().entries();
        assert(g->Operation_0.targets[0] == target_of(gs[s]));
    }
}

/// Fusion never makes more gates than it is given.
pub proof fn lemma_fused_not_longer<A, F: Fn(A, A, A, A) -> A>(
    gs: Seq<GateModel<A>>,
    i: int,
    out: Seq<GateModel<A>>,
    dot2: F,
)
    requires
        fused_from(gs, i, out, dot2),
    ensures
        i <= gs.len() ==> out.len() <= gs.len() - i,
    decreases gs.len() - i,
{
    if 0 <= i < gs.len() {
        let e = segment_end(gs, i);
        lemma_fused_not_longer(gs, e, out.drop_first(), dot2);
    }
}

/// Fused runs are maximal: no two neighbouring gates that fusion makes are
/// single-qubit operations on the same qubit.
pub proof fn lemma_fused_runs_maximal<A, F: Fn(A, A, A, A) -> A>(
    gs: Seq<GateModel<A>>,
    i: int,
    out: Seq<GateModel<A>>,
    dot2: F,
)
    requires
        fused_from(gs, i, out, dot2),
    ensures
        forall|k: int|
            0 <= k < out.len() - 1 && (#[trigger] out[k]).is_single_qubit_op() && out[k
                + 1].is_single_qubit_op() ==> target_of(out[k]) != target_of(out[k + 1]),
    decreases gs.len() - i,
{
    reveal_with_fuel(fused_from, 2);
    if 0 <= i < gs.len() {
        let e = segment_end(gs, i);
        let rest = out.drop_first();
        lemma_fused_runs_maximal(gs, e, rest, dot2);
        lemma_fused_segment_kind(gs, i, e, out[0], dot2);
        if e < gs.len() {
            // The next segment starts at `e`, where the run of `gs[i]` ended.
            if gs[i].is_single_qubit_op() {
                lemma_run_end_bounds(gs, target_of(gs[i]), i + 1);
            }
            assert(fused_segment(gs, e, segment_end(gs, e), rest[0], dot2));
            assert(rest[0] == out[1]);
            lemma_fused_segment_kind(gs, e, segment_end(gs, e), out[1], dot2);
        } else {
            assert(rest.len() == 0);
        }
        assert forall|k: int|
            0 <= k < out.len() - 1 && (#[trigger] out[k]).is_single_qubit_op() && out[k
                + 1].is_single_qubit_op() implies target_of(out[k]) != target_of(out[k + 1]) by {
            if k > 0 {
                assert(out[k] == rest[k - 1]);
                assert(out[k + 1] == rest[k]);
            }
        }
    }
}

/// The 2x2 matrix of a single-qubit operation.
fn op_mat2<A: Copy>(op: &Operation<A>) -> (m: Mat2<A>)
    requires
        op@.is_single_qubit(),
    ensures
        m == op@.mat2(),
{
    Mat2 { m00: op.matrix[0], m01: op.matrix[1], m10: op.matrix[2], m11: op.matrix[3] }
}

/// Replaces each maximal run of single-qubit operations on one qubit by one
/// operation on that qubit whose matrix is the product of the run's
/// matrices, later gates on the left, each entry computed by `dot2` (given
/// two pairs of factors, the sum of their products). Other gates are kept.
pub fn fuse_gates<A: Copy, F: Fn(A, A, A, A) -> A>(gates: &[Gate<A>], dot2: &F) -> (fused: Vec<
    Gate<A>,
>)
    requires
        total4(*dot2),
    ensures
        fused_from(models(gates@), 0, models(fused@), *dot2),
{
    let ghost gs = models(gates@);
    let n = gates.len();
    let mut fused: Vec<Gate<A>> = Vec::new();
    let mut i: usize = 0;
    while i < n
        invariant
            n == gates@.len(),
            gs == models(gates@),
            gs.len() == n,
            i <= n,
            total4(*dot2),
            forall|rest: Seq<GateModel<A>>|
                #[trigger] fused_from(gs, i as int, rest, *dot2) ==> fused_from(
                    gs,
                    0,
                    models(fused@) + rest,
                    *dot2,
                ),
        decreases n - i,
    {
        let start = i;
        let g: Gate<A>;
        match &gates[i] {
            Gate::Operation(op) if op.is_single_qubit() => {
                let target = op.targets[0];
                let mut matrix = op_mat2(op);
                let ghost mut ms: Seq<Mat2<A>> = seq![matrix];
                proof {
                    assert(gs[start as int] == gates@[start as int]@);
                }
                i = i + 1;
                while i < n
                    invariant_except_break
                        run_end(gs, target, start + 1) == run_end(gs, target, i as int),
                    invariant
                        n == gates@.len(),
                        gs == models(gates@),
                        gs.len() == n,
                        start < i <= n,
                        total4(*dot2),
                        gs[start as int].is_single_qubit_op_on(target),
                        chain_products(gs, start as int, i as int, ms, *dot2),
                        ms.last() == matrix,
                    ensures
                        run_end(gs, target, start + 1) == i,
                    decreases n - i,
                {
                    proof {
                        assert(gs[i as int] == gates@[i as int]@);
                    }
                    match &gates[i] {
                        Gate::Operation(next) if next.is_single_qubit() && next.targets[0]
                            == target => {
                            let next_matrix = op_mat2(next);
                            matrix = next_matrix.mul(&matrix, dot2);
                            proof {
                                assert(mat2_of(gs[i as int]) == next_matrix);
                                let old_ms = ms;
                                ms = ms.push(matrix);
                                assert forall|k: int| 0 < k < ms.len() implies is_product(
                                    mat2_of(gs[start + k]),
                                    ms[k - 1],
                                    #[trigger] ms[k],
                                    *dot2,
                                ) by {
                                    if k < old_ms.len() {
                                        assert(ms[k] == old_ms[k]);
                                        assert(ms[k - 1] == old_ms[k - 1]);
                                    }
                                }
                            }
                            i = i + 1;
                        },
                        _ => {
                            break ;
                        },
                    }
                }
                let mut targets: Vec<usize> = Vec::new();
                targets.push(target);
                g = Gate::Operation(Operation { targets, matrix: matrix.into_vec() });
                proof {
                    assert(g@->Operation_0.targets =~= seq![target]);
                    assert(segment_end(gs, start as int) == i);
                    assert(chain_products(gs, start as int, i as int, ms, *dot2));
                    assert(fused_segment(gs, start as int, i as int, g@, *dot2));
                }
            },
            other => {
                g = other.duplicate();
                proof {
                    assert(gs[start as int] == gates@[start as int]@);
                }
                i = i + 1;
            },
        }
        proof {
            assert(segment_end(gs, start as int) == i);
            assert(fused_segment(gs, start as int, i as int, g@, *dot2));
            assert forall|rest: Seq<GateModel<A>>| #[trigger]
                fused_from(gs, i as int, rest, *dot2) implies fused_from(
                gs,
                0,
                models(fused@.push(g)) + rest,
                *dot2,
            ) by {
                let with_g = seq![g@] + rest;
                assert(with_g.drop_first() =~= rest);
                assert(fused_from(gs, start as int, with_g, *dot2));
                assert(models(fused@.push(g)) + rest =~= models(fused@) + with_g);
            }
        }
        fused.push(g);
    }
    proof {
        assert(fused_from(gs, n as int, Seq::<GateModel<A>>::empty(), *dot2));
        assert(models(fused@) + Seq::<GateModel<A>>::empty() =~= models(fused@));
    }
    fused
}

} // verus!
