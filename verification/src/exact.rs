//! Laws that hold when the arithmetic on amplitudes is exact: when `dot2`
//! computes `w * x + y * z` for an addition and a multiplication that obey
//! the ring laws, and (for whole runs) when the other closures are functions
//! of their arguments. Floating-point arithmetic does not obey the ring laws
//! (its sums are not associative), so for it these laws hold only up to
//! rounding.
use crate::fuse::{
    chain_products, fused_from, fused_segment, lemma_fused_segment_kind, lemma_run_end_bounds,
    mat2_of, segment_end, target_of,
};
use crate::gate::GateModel;
use crate::index::{bit, dim_of, extracted, with_bit};
use crate::matrix::{is_product, Mat2};
use crate::circuit::{gate_step, recorded, run_trace, Arithmetic};
use crate::error::SimError;
use crate::state::{
    bit_flip, collapsed, gathered, lemma_one_target_verdict, mat2_applied, matrix_row, measured,
    partner, target_verdict,
    weight_step, weights_summed, Measurement,
};
use vstd::arithmetic::power2::pow2;
use vstd::bits::{lemma_usize_pow2_no_overflow, lemma_usize_shl_is_mul};
use vstd::prelude::*;

verus! {

/// `plus` and `times` obey the laws of a ring that the product of matrices
/// needs: both associative, `plus` commutative, `times` distributing over `plus`
/// on both sides.
#[verifier::opaque]
pub open spec fn is_ring<A>(plus: spec_fn(A, A) -> A, times: spec_fn(A, A) -> A) -> bool {
    &&& forall|a: A, b: A, c: A| #[trigger] plus(plus(a, b), c) == plus(a, plus(b, c))
    &&& forall|a: A, b: A| #[trigger] plus(a, b) == plus(b, a)
    &&& forall|a: A, b: A, c: A| #[trigger] times(times(a, b), c) == times(a, times(b, c))
    &&& forall|a: A, b: A, c: A| #[trigger] times(a, plus(b, c)) == plus(times(a, b), times(a, c))
    &&& forall|a: A, b: A, c: A| #[trigger] times(plus(a, b), c) == plus(times(a, c), times(b, c))
}

/// Every result of `dot2` on `(w, x, y, z)` is `w * x + y * z`.
pub open spec fn dot2_is_exact<A, F: Fn(A, A, A, A) -> A>(
    dot2: F,
    plus: spec_fn(A, A) -> A,
    times: spec_fn(A, A) -> A,
) -> bool {
    forall|w: A, x: A, y: A, z: A, r: A|
        #[trigger] call_ensures(dot2, (w, x, y, z), r) ==> r == plus(times(w, x), times(y, z))
}

/// The amplitudes that applying the 2x2 matrix `m` to qubit `t` gives in
/// exact arithmetic: amplitude `i` mixes the pair of amplitudes whose indices
/// agree with `i` but for bit `t`, by row `bit(i, t)` of `m`.
pub open spec fn mat2_image<A>(
    old: Seq<A>,
    t: usize,
    m: Mat2<A>,
    plus: spec_fn(A, A) -> A,
    times: spec_fn(A, A) -> A,
) -> Seq<A> {
    Seq::new(
        old.len(),
        |i: int|
            {
                let lo = with_bit(i as usize, t, false);
                let hi = with_bit(i as usize, t, true);
                if !bit(i as usize, t) {
                    plus(times(m.m00, old[lo as int]), times(m.m01, old[hi as int]))
                } else {
                    plus(times(m.m10, old[lo as int]), times(m.m11, old[hi as int]))
                }
            },
    )
}

/// Setting bit `t` of `i` to `b` and then to `c` is setting it to `c`; the
/// result has bit `t` equal to `c`, stays below `2^n`, and is `i` itself when
/// `c` is the bit `i` already has.
proof fn lemma_pair_bits(i: usize, t: usize, n: usize, b: bool, c: bool)
    requires
        t < n < usize::BITS,
        i < pow2(n as nat),
    ensures
        with_bit(with_bit(i, t, b), t, c) == with_bit(i, t, c),
        bit(with_bit(i, t, c), t) == c,
        with_bit(i, t, c) < pow2(n as nat),
        bit(i, t) == c ==> with_bit(i, t, c) == i,
{
    lemma_usize_pow2_no_overflow(n as nat);
    lemma_usize_shl_is_mul(1, n);
    assert(with_bit(with_bit(i, t, b), t, c) == with_bit(i, t, c) && bit(with_bit(i, t, c), t)
        == c && with_bit(i, t, c) < (1usize << n) && (bit(i, t) == c ==> with_bit(i, t, c) == i))
        by (bit_vector)
        requires
            t < n,
            n < usize::BITS,
            i < (1usize << n),
    ;
}

/// In exact arithmetic, a 2x2 update has one possible result: `mat2_image`.
pub proof fn lemma_mat2_applied_is_image<A, F: Fn(A, A, A, A) -> A>(
    old: Seq<A>,
    n: usize,
    t: usize,
    m: Mat2<A>,
    dot2: F,
    plus: spec_fn(A, A) -> A,
    times: spec_fn(A, A) -> A,
    new: Seq<A>,
)
    requires
        t < n < usize::BITS,
        old.len() == dim_of(n as nat),
        dot2_is_exact(dot2, plus, times),
        mat2_applied(old, t, m, dot2, new),
    ensures
        new == mat2_image(old, t, m, plus, times),
{
    let img = mat2_image(old, t, m, plus, times);
    assert forall|i: int| 0 <= i < new.len() implies new[i] == img[i] by {
        lemma_usize_pow2_no_overflow(n as nat);
        let iu = i as usize;
        assert(iu as int == i);
        lemma_pair_bits(iu, t, n, false, false);
        lemma_pair_bits(iu, t, n, true, true);
        let lo = with_bit(iu, t, false);
        let hi = with_bit(iu, t, true);
        if !bit(iu, t) {
            assert(lo == iu);
            assert(old[iu as int] == old[iu as int]);
            assert(call_ensures(dot2, (m.m00, old[lo as int], m.m01, old[hi as int]), new[i]));
        } else {
            lemma_pair_bits(lo, t, n, true, true);
            lemma_pair_bits(iu, t, n, false, true);
            assert(hi == iu);
            assert(partner(lo, t) == iu);
            assert(old[lo as int] == old[lo as int]);
            assert(call_ensures(dot2, (m.m10, old[lo as int], m.m11, old[hi as int]), new[i]));
        }
    }
    assert(new =~= img);
}

/// Fusing two 2x2 updates on one qubit is exact in exact arithmetic:
/// applying `m1` and then `m2` gives what applying their product does.
pub proof fn lemma_two_updates_fuse<A, F: Fn(A, A, A, A) -> A>(
    s0: Seq<A>,
    n: usize,
    t: usize,
    m1: Mat2<A>,
    m2: Mat2<A>,
    m: Mat2<A>,
    dot2: F,
    plus: spec_fn(A, A) -> A,
    times: spec_fn(A, A) -> A,
)
    requires
        t < n < usize::BITS,
        s0.len() == dim_of(n as nat),
        is_ring(plus, times),
        dot2_is_exact(dot2, plus, times),
        is_product(m2, m1, m, dot2),
    ensures
        mat2_image(mat2_image(s0, t, m1, plus, times), t, m2, plus, times) == mat2_image(
            s0,
            t,
            m,
            plus,
            times,
        ),
{
    let s1 = mat2_image(s0, t, m1, plus, times);
    let s2 = mat2_image(s1, t, m2, plus, times);
    let s3 = mat2_image(s0, t, m, plus, times);
    assert(m.m00 == plus(times(m2.m00, m1.m00), times(m2.m01, m1.m10)));
    assert(m.m01 == plus(times(m2.m00, m1.m01), times(m2.m01, m1.m11)));
    assert(m.m10 == plus(times(m2.m10, m1.m00), times(m2.m11, m1.m10)));
    assert(m.m11 == plus(times(m2.m10, m1.m01), times(m2.m11, m1.m11)));
    assert forall|i: int| 0 <= i < s2.len() implies s2[i] == s3[i] by {
        let iu = i as usize;
        let lo = with_bit(iu, t, false);
        let hi = with_bit(iu, t, true);
        lemma_pair_bits(iu, t, n, false, false);
        lemma_pair_bits(iu, t, n, true, true);
        lemma_pair_bits(iu, t, n, false, true);
        lemma_pair_bits(iu, t, n, true, false);
        let a = s0[lo as int];
        let b = s0[hi as int];
        assert(s1[lo as int] == plus(times(m1.m00, a), times(m1.m01, b)));
        assert(s1[hi as int] == plus(times(m1.m10, a), times(m1.m11, b)));
        if !bit(iu, t) {
            lemma_row_of_product(m2.m00, m2.m01, m1.m00, m1.m01, m1.m10, m1.m11, a, b, plus, times);
        } else {
            lemma_row_of_product(m2.m10, m2.m11, m1.m00, m1.m01, m1.m10, m1.m11, a, b, plus, times);
        }
    }
    assert(s2 =~= s3);
}

/// One row of a product of 2x2 matrices applied to a pair `(a, b)`:
/// `p * (q0 a + q1 b) + r * (q2 a + q3 b) == (p q0 + r q2) a + (p q1 + r q3) b`.
proof fn lemma_row_of_product<A>(
    p: A,
    r: A,
    q0: A,
    q1: A,
    q2: A,
    q3: A,
    a: A,
    b: A,
    plus: spec_fn(A, A) -> A,
    times: spec_fn(A, A) -> A,
)
    requires
        is_ring(plus, times),
    ensures
        plus(times(p, plus(times(q0, a), times(q1, b))), times(r, plus(times(q2, a), times(q3, b)))) == plus(
            times(plus(times(p, q0), times(r, q2)), a),
            times(plus(times(p, q1), times(r, q3)), b),
        ),
{
    reveal(is_ring);
    let pa = times(times(p, q0), a);
    let pb = times(times(p, q1), b);
    let ra = times(times(r, q2), a);
    let rb = times(times(r, q3), b);
    assert(times(p, plus(times(q0, a), times(q1, b))) == plus(pa, pb)) by {
        assert(times(p, plus(times(q0, a), times(q1, b))) == plus(times(p, times(q0, a)), times(p, times(q1, b))));
        assert(times(times(p, q0), a) == times(p, times(q0, a)));
        assert(times(times(p, q1), b) == times(p, times(q1, b)));
    }
    assert(times(r, plus(times(q2, a), times(q3, b))) == plus(ra, rb)) by {
        assert(times(r, plus(times(q2, a), times(q3, b))) == plus(times(r, times(q2, a)), times(r, times(q3, b))));
        assert(times(times(r, q2), a) == times(r, times(q2, a)));
        assert(times(times(r, q3), b) == times(r, times(q3, b)));
    }
    assert(times(plus(times(p, q0), times(r, q2)), a) == plus(pa, ra));
    assert(times(plus(times(p, q1), times(r, q3)), b) == plus(pb, rb));
    // (pa + pb) + (ra + rb) == (pa + ra) + (pb + rb)
    assert(plus(plus(pa, pb), plus(ra, rb)) == plus(pa, plus(pb, plus(ra, rb))));
    assert(plus(pb, plus(ra, rb)) == plus(plus(pb, ra), rb));
    assert(plus(pb, ra) == plus(ra, pb));
    assert(plus(plus(ra, pb), rb) == plus(ra, plus(pb, rb)));
    assert(plus(pa, plus(ra, plus(pb, rb))) == plus(plus(pa, ra), plus(pb, rb)));
}

/// Fusion is exact in exact arithmetic: applying the 2x2 matrices of a
/// segment of single-qubit operations on qubit `t`, one after the other,
/// gives what applying the one operation that fusion makes of the segment
/// does.
pub proof fn lemma_fused_segment_exact<A, F: Fn(A, A, A, A) -> A>(
    gs: Seq<GateModel<A>>,
    s: int,
    e: int,
    g: GateModel<A>,
    s0: Seq<A>,
    n: usize,
    dot2: F,
    plus: spec_fn(A, A) -> A,
    times: spec_fn(A, A) -> A,
)
    requires
        0 <= s < gs.len(),
        gs[s].is_single_qubit_op(),
        fused_segment(gs, s, e, g, dot2),
        target_of(gs[s]) < n < usize::BITS,
        s0.len() == dim_of(n as nat),
        is_ring(plus, times),
        dot2_is_exact(dot2, plus, times),
    ensures
        g.is_single_qubit_op(),
        target_of(g) == target_of(gs[s]),
        one_by_one(gs, s, e, s0, target_of(gs[s]), plus, times) == mat2_image(
            s0,
            target_of(gs[s]),
            mat2_of(g),
            plus,
            times,
        ),
{
    let ms = choose|ms: Seq<Mat2<A>>|
        #[trigger] chain_products(gs, s, e, ms, dot2) && g->Operation_0.matrix == ms.last().entries();
    assert(g->Operation_0.targets.len() == 1);
    assert(mat2_of(g) == ms.last());
    lemma_partial_products_fuse(gs, s, e, ms, s0, n, target_of(gs[s]), dot2, plus, times, ms.len() as int);
}

/// The amplitudes after applying the 2x2 matrices of the gates from `s` to
/// `e` to qubit `t`, one after the other, in exact arithmetic.
pub open spec fn one_by_one<A>(
    gs: Seq<GateModel<A>>,
    s: int,
    e: int,
    s0: Seq<A>,
    t: usize,
    plus: spec_fn(A, A) -> A,
    times: spec_fn(A, A) -> A,
) -> Seq<A>
    decreases e - s,
{
    if e <= s {
        s0
    } else {
        mat2_image(one_by_one(gs, s, e - 1, s0, t, plus, times), t, mat2_of(gs[e - 1]), plus, times)
    }
}

/// The first `k` updates one by one give what the `k`-th partial product does.
proof fn lemma_partial_products_fuse<A, F: Fn(A, A, A, A) -> A>(
    gs: Seq<GateModel<A>>,
    s: int,
    e: int,
    ms: Seq<Mat2<A>>,
    s0: Seq<A>,
    n: usize,
    t: usize,
    dot2: F,
    plus: spec_fn(A, A) -> A,
    times: spec_fn(A, A) -> A,
    k: int,
)
    requires
        t < n < usize::BITS,
        s0.len() == dim_of(n as nat),
        is_ring(plus, times),
        dot2_is_exact(dot2, plus, times),
        chain_products(gs, s, e, ms, dot2),
        1 <= k <= ms.len(),
    ensures
        one_by_one(gs, s, s + k, s0, t, plus, times) == mat2_image(s0, t, ms[k - 1], plus, times),
    decreases k,
{
    if k == 1 {
        assert(one_by_one(gs, s, s, s0, t, plus, times) == s0);
    } else {
        lemma_partial_products_fuse(gs, s, e, ms, s0, n, t, dot2, plus, times, k - 1);
        let prev = one_by_one(gs, s, s + k - 1, s0, t, plus, times);
        assert(is_product(mat2_of(gs[s + (k - 1)]), ms[k - 2], ms[k - 1], dot2));
        lemma_two_updates_fuse(s0, n, t, ms[k - 2], mat2_of(gs[s + k - 1]), ms[k - 1], dot2, plus, times);
    }
}

/// `st[j + 1]` is a possible result of applying the 2x2 matrix of gate
/// `s + j` to qubit `t` of `st[j]`.
pub open spec fn stepped<A, F: Fn(A, A, A, A) -> A>(
    gs: Seq<GateModel<A>>,
    s: int,
    st: Seq<Seq<A>>,
    t: usize,
    dot2: F,
    j: int,
) -> bool {
    mat2_applied(st[j], t, mat2_of(gs[s + j]), dot2, st[j + 1])
}

/// The amplitudes `st[k + 1]` that stepping the 2x2 operations of the gates
/// from `s` on one at a time gives in exact arithmetic are those of
/// `one_by_one`.
proof fn lemma_steps_are_one_by_one<A, F: Fn(A, A, A, A) -> A>(
    gs: Seq<GateModel<A>>,
    s: int,
    st: Seq<Seq<A>>,
    n: usize,
    t: usize,
    dot2: F,
    plus: spec_fn(A, A) -> A,
    times: spec_fn(A, A) -> A,
    k: int,
)
    requires
        t < n < usize::BITS,
        0 <= k < st.len(),
        st[0].len() == dim_of(n as nat),
        dot2_is_exact(dot2, plus, times),
        forall|j: int| 0 <= j < st.len() - 1 ==> #[trigger] stepped(gs, s, st, t, dot2, j),
    ensures
        st[k] == one_by_one(gs, s, s + k, st[0], t, plus, times),
        st[k].len() == st[0].len(),
    decreases k,
{
    if k > 0 {
        lemma_steps_are_one_by_one(gs, s, st, n, t, dot2, plus, times, k - 1);
        assert(stepped(gs, s, st, t, dot2, k - 1));
        lemma_mat2_applied_is_image(st[k - 1], n, t, mat2_of(gs[s + k - 1]), dot2, plus, times, st[k]);
    }
}

/// Fusion changes no result in exact arithmetic: when the single-qubit
/// operations of a segment on qubit `t` are applied one at a time, taking
/// the amplitudes `st[0]` through `st[1]`, ... to `st.last()`, applying the
/// one operation that fusion makes of the segment to `st[0]` instead gives
/// `st.last()` too.
pub proof fn lemma_fusion_exact<A, F: Fn(A, A, A, A) -> A>(
    gs: Seq<GateModel<A>>,
    s: int,
    e: int,
    g: GateModel<A>,
    st: Seq<Seq<A>>,
    n: usize,
    dot2: F,
    plus: spec_fn(A, A) -> A,
    times: spec_fn(A, A) -> A,
    fused: Seq<A>,
)
    requires
        0 <= s < gs.len(),
        gs[s].is_single_qubit_op(),
        fused_segment(gs, s, e, g, dot2),
        target_of(gs[s]) < n < usize::BITS,
        is_ring(plus, times),
        dot2_is_exact(dot2, plus, times),
        st.len() == e - s + 1,
        st[0].len() == dim_of(n as nat),
        forall|j: int|
            0 <= j < st.len() - 1 ==> #[trigger] stepped(gs, s, st, target_of(gs[s]), dot2, j),
        mat2_applied(st[0], target_of(g), mat2_of(g), dot2, fused),
    ensures
        fused == st.last(),
{
    let t = target_of(gs[s]);
    let s0 = st[0];
    let img = mat2_image(s0, t, mat2_of(g), plus, times);
    assert(target_of(g) == t && one_by_one(gs, s, e, s0, t, plus, times) == img) by {
        lemma_fused_segment_exact(gs, s, e, g, s0, n, dot2, plus, times);
    }
    assert(st[e - s] == one_by_one(gs, s, e, s0, t, plus, times)) by {
        lemma_steps_are_one_by_one(gs, s, st, n, t, dot2, plus, times, e - s);
    }
    assert(fused == img) by {
        lemma_mat2_applied_is_image(s0, n, t, mat2_of(g), dot2, plus, times, fused);
    }
}

/// `dot` gives one result for a row and a column, whichever vectors hold them.
pub open spec fn dot_is_function<A, D: Fn(&Vec<A>, &Vec<A>) -> A>(dot: D) -> bool {
    forall|r1: Vec<A>, c1: Vec<A>, r2: Vec<A>, c2: Vec<A>, v1: A, v2: A|
        #![trigger call_ensures(dot, (&r1, &c1), v1), call_ensures(dot, (&r2, &c2), v2)]
        r1@ == r2@ && c1@ == c2@ && call_ensures(dot, (&r1, &c1), v1) && call_ensures(
            dot,
            (&r2, &c2),
            v2,
        ) ==> v1 == v2
}

/// Each closure of a measurement gives one result for its arguments: its
/// weights, their sums, the decision on a sum (so the outcome is the one
/// that was drawn) and the rescaling.
pub open spec fn measurement_is_function<A, W, S, G: Fn(A) -> W, P: Fn(W, W) -> W, O: Fn(W) -> (
    bool,
    S,
), R: Fn(A, S) -> A>(m: Measurement<A, W, G, P, O, R>) -> bool {
    &&& forall|a: A, w1: W, w2: W|
        #![trigger call_ensures(m.weigh, (a,), w1), call_ensures(m.weigh, (a,), w2)]
        call_ensures(m.weigh, (a,), w1) && call_ensures(m.weigh, (a,), w2) ==> w1 == w2
    &&& forall|v: W, w: W, s1: W, s2: W|
        #![trigger call_ensures(m.accumulate, (v, w), s1), call_ensures(m.accumulate, (v, w), s2)]
        call_ensures(m.accumulate, (v, w), s1) && call_ensures(m.accumulate, (v, w), s2) ==> s1
            == s2
    &&& forall|w: W, d1: (bool, S), d2: (bool, S)|
        #![trigger call_ensures(m.decide, (w,), d1), call_ensures(m.decide, (w,), d2)]
        call_ensures(m.decide, (w,), d1) && call_ensures(m.decide, (w,), d2) ==> d1 == d2
    &&& forall|a: A, sc: S, r1: A, r2: A|
        #![trigger call_ensures(m.rescale, (a, sc), r1), call_ensures(m.rescale, (a, sc), r2)]
        call_ensures(m.rescale, (a, sc), r1) && call_ensures(m.rescale, (a, sc), r2) ==> r1 == r2
}

/// Two summings of the weights of one state agree on every partial sum.
proof fn lemma_sums_agree<A, W, S, G: Fn(A) -> W, P: Fn(W, W) -> W, O: Fn(W) -> (bool, S), R: Fn(
    A,
    S,
) -> A>(
    old: Seq<A>,
    q: usize,
    m: Measurement<A, W, G, P, O, R>,
    ws1: Seq<W>,
    ps1: Seq<W>,
    ws2: Seq<W>,
    ps2: Seq<W>,
    i: int,
)
    requires
        measurement_is_function(m),
        weights_summed(old, q, m.weigh, m.accumulate, m.no_weight, ws1, ps1),
        weights_summed(old, q, m.weigh, m.accumulate, m.no_weight, ws2, ps2),
        0 <= i <= old.len(),
    ensures
        ps1[i] == ps2[i],
    decreases i,
{
    if i > 0 {
        lemma_sums_agree(old, q, m, ws1, ps1, ws2, ps2, i - 1);
        assert(weight_step(old, q, m.weigh, m.accumulate, ws1, ps1, i - 1));
        assert(weight_step(old, q, m.weigh, m.accumulate, ws2, ps2, i - 1));
        if bit((i - 1) as usize, q) {
            assert(ws1[i - 1] == ws2[i - 1]);
        }
    }
}

/// A measurement has one possible outcome and one possible result when its
/// closures are functions.
pub proof fn lemma_measured_unique<A, W, S, G: Fn(A) -> W, P: Fn(W, W) -> W, O: Fn(W) -> (
    bool,
    S,
), R: Fn(A, S) -> A>(
    old: Seq<A>,
    q: usize,
    m: Measurement<A, W, G, P, O, R>,
    one1: bool,
    new1: Seq<A>,
    one2: bool,
    new2: Seq<A>,
)
    requires
        old.len() <= usize::MAX,
        measurement_is_function(m),
        measured(old, q, one1, m, new1),
        measured(old, q, one2, m, new2),
    ensures
        one1 == one2,
        new1 == new2,
        new1.len() == old.len(),
{
    let (ws1, ps1, sc1) = choose|ws: Seq<W>, ps: Seq<W>, scale: S|
        weights_summed(old, q, m.weigh, m.accumulate, m.no_weight, ws, ps) && call_ensures(
            m.decide,
            (ps.last(),),
            (one1, scale),
        ) && collapsed(old, q, one1, scale, m.rescale, m.zero, new1);
    let (ws2, ps2, sc2) = choose|ws: Seq<W>, ps: Seq<W>, scale: S|
        weights_summed(old, q, m.weigh, m.accumulate, m.no_weight, ws, ps) && call_ensures(
            m.decide,
            (ps.last(),),
            (one2, scale),
        ) && collapsed(old, q, one2, scale, m.rescale, m.zero, new2);
    lemma_sums_agree(old, q, m, ws1, ps1, ws2, ps2, old.len() as int);
    assert(ps1.last() == ps2.last());
    assert((one1, sc1) == (one2, sc2));
    assert forall|i: int| 0 <= i < new1.len() implies new1[i] == new2[i] by {
        let iu = i as usize;
        assert(iu as int == i);
        assert(new1[iu as int] == new1[iu as int]);
        assert(new2[iu as int] == new2[iu as int]);
    }
    assert(new1 =~= new2);
}

/// The arithmetic of a run is exact: `dot2` computes `w * x + y * z` in the
/// ring of `plus` and `times`, and `dot` and the closures of a measurement
/// are functions of their arguments.
pub open spec fn arithmetic_is_exact<
    A,
    W,
    S,
    F: Fn(A, A, A, A) -> A,
    D: Fn(&Vec<A>, &Vec<A>) -> A,
    G: Fn(A) -> W,
    P: Fn(W, W) -> W,
    O: Fn(W) -> (bool, S),
    R: Fn(A, S) -> A,
>(k: Arithmetic<A, W, F, D, G, P, O, R>, plus: spec_fn(A, A) -> A, times: spec_fn(A, A) -> A) -> bool {
    &&& is_ring(plus, times)
    &&& dot2_is_exact(k.dot2, plus, times)
    &&& dot_is_function(k.dot)
    &&& measurement_is_function(k.measure)
}

/// With exact arithmetic a gate has one possible step from given amplitudes.
pub proof fn lemma_step_unique<
    A,
    W,
    S,
    F: Fn(A, A, A, A) -> A,
    D: Fn(&Vec<A>, &Vec<A>) -> A,
    G: Fn(A) -> W,
    P: Fn(W, W) -> W,
    O: Fn(W) -> (bool, S),
    R: Fn(A, S) -> A,
>(
    g: GateModel<A>,
    nq: usize,
    old: Seq<A>,
    new1: Seq<A>,
    out1: Result<Option<(usize, u8)>, SimError>,
    new2: Seq<A>,
    out2: Result<Option<(usize, u8)>, SimError>,
    k: Arithmetic<A, W, F, D, G, P, O, R>,
    plus: spec_fn(A, A) -> A,
    times: spec_fn(A, A) -> A,
)
    requires
        nq < usize::BITS,
        old.len() == dim_of(nq as nat),
        arithmetic_is_exact(k, plus, times),
        gate_step(g, nq, old, new1, out1, k),
        gate_step(g, nq, old, new2, out2, k),
    ensures
        new1 == new2,
        out1 == out2,
        new1.len() == old.len(),
{
    lemma_usize_pow2_no_overflow(nq as nat);
    match g {
        GateModel::Operation(op) => {
            if target_verdict(op.targets, nq) is Ok {
                if op.is_single_qubit() {
                    let t = op.targets[0];
                    if !(t < nq) {
                        assert(op.targets[0] >= nq);
                        assert(exists|p: int| 0 <= p < op.targets.len() && #[trigger] op.targets[p] >= nq);
                    }
                    lemma_mat2_applied_is_image(old, nq, t, op.mat2(), k.dot2, plus, times, new1);
                    lemma_mat2_applied_is_image(old, nq, t, op.mat2(), k.dot2, plus, times, new2);
                } else {
                    assert forall|i: int| 0 <= i < new1.len() implies new1[i] == new2[i] by {
                        let o = i as usize;
                        assert(o as int == i);
                        assert(new1[o as int] == new1[o as int]);
                        assert(new2[o as int] == new2[o as int]);
                        let (r1, c1) = choose|row: Vec<A>, col: Vec<A>|
                            row@ == matrix_row(
                                op.matrix,
                                extracted(o, op.targets) as int,
                                dim_of(op.targets.len()) as int,
                            ) && col@ == gathered(old, op.targets, o, dim_of(op.targets.len()))
                                && call_ensures(k.dot, (&row, &col), new1[i]);
                        let (r2, c2) = choose|row: Vec<A>, col: Vec<A>|
                            row@ == matrix_row(
                                op.matrix,
                                extracted(o, op.targets) as int,
                                dim_of(op.targets.len()) as int,
                            ) && col@ == gathered(old, op.targets, o, dim_of(op.targets.len()))
                                && call_ensures(k.dot, (&row, &col), new2[i]);
                    }
                    assert(new1 =~= new2);
                }
            }
        },
        GateModel::Measure(q) => {
            if q < nq {
                let one1 = choose|one: bool|
                    out1 == Ok::<Option<(usize, u8)>, SimError>(
                        Some((q, if one { 1u8 } else { 0u8 })),
                    ) && measured(old, q, one, k.measure, new1);
                let one2 = choose|one: bool|
                    out2 == Ok::<Option<(usize, u8)>, SimError>(
                        Some((q, if one { 1u8 } else { 0u8 })),
                    ) && measured(old, q, one, k.measure, new2);
                lemma_measured_unique(old, q, k.measure, one1, new1, one2, new2);
            }
        },
        GateModel::Reset(q) => {
            if q < nq {
                let (one1, mid1) = choose|one: bool, mid: Seq<A>|
                    measured(old, q, one, k.measure, mid) && if one {
                        mat2_applied(mid, q, bit_flip(k.measure.zero, k.unit), k.dot2, new1)
                    } else {
                        new1 == mid
                    };
                let (one2, mid2) = choose|one: bool, mid: Seq<A>|
                    measured(old, q, one, k.measure, mid) && if one {
                        mat2_applied(mid, q, bit_flip(k.measure.zero, k.unit), k.dot2, new2)
                    } else {
                        new2 == mid
                    };
                lemma_measured_unique(old, q, k.measure, one1, mid1, one2, mid2);
                if one1 {
                    let x = bit_flip(k.measure.zero, k.unit);
                    lemma_mat2_applied_is_image(mid1, nq, q, x, k.dot2, plus, times, new1);
                    lemma_mat2_applied_is_image(mid1, nq, q, x, k.dot2, plus, times, new2);
                }
            }
        },
        GateModel::Barrier => {},
    }
}

/// What a run reports: the error of the step it stopped at, else the
/// measurement records in order.
pub open spec fn run_outcome(outs: Seq<Result<Option<(usize, u8)>, SimError>>) -> Result<
    Seq<(usize, u8)>,
    SimError,
> {
    if outs.len() > 0 && outs.last() is Err {
        Err(outs.last()->Err_0)
    } else {
        Ok(recorded(outs))
    }
}

/// The records of the first `i + 1` outputs are those of the first `i`,
/// and the record of output `i` if it has one.
proof fn lemma_recorded_step(outs: Seq<Result<Option<(usize, u8)>, SimError>>, i: int)
    requires
        0 <= i < outs.len(),
    ensures
        recorded(outs.take(i + 1)) == recorded(outs.take(i)) + match outs[i] {
            Ok(Some(m)) => seq![m],
            _ => Seq::empty(),
        },
{
    let t = outs.take(i + 1);
    assert(t.drop_last() =~= outs.take(i));
    assert(t.last() == outs[i]);
}

/// Outputs without records add none.
proof fn lemma_recorded_quiet(outs: Seq<Result<Option<(usize, u8)>, SimError>>, i: int, e: int)
    requires
        0 <= i <= e <= outs.len(),
        forall|j: int| i <= j < e ==> outs[j] == Ok::<Option<(usize, u8)>, SimError>(None),
    ensures
        recorded(outs.take(e)) == recorded(outs.take(i)),
    decreases e - i,
{
    if e > i {
        lemma_recorded_quiet(outs, i, e - 1);
        lemma_recorded_step(outs, e - 1);
        assert(recorded(outs.take(e)) =~= recorded(outs.take(e - 1)));
    }
}

/// A run that has not stopped before position `i` and has a gate there
/// made a step there.
proof fn lemma_run_goes_on<
    A,
    W,
    S,
    F: Fn(A, A, A, A) -> A,
    D: Fn(&Vec<A>, &Vec<A>) -> A,
    G: Fn(A) -> W,
    P: Fn(W, W) -> W,
    O: Fn(W) -> (bool, S),
    R: Fn(A, S) -> A,
>(
    gs: Seq<GateModel<A>>,
    nq: usize,
    st: Seq<Seq<A>>,
    os: Seq<Result<Option<(usize, u8)>, SimError>>,
    k: Arithmetic<A, W, F, D, G, P, O, R>,
    i: int,
)
    requires
        run_trace(gs, nq, st, os, k),
        0 <= i < gs.len(),
        i <= os.len(),
        forall|j: int| 0 <= j < i ==> (#[trigger] os[j]) is Ok,
    ensures
        i < os.len(),
        gate_step(gs[i], nq, st[i], st[i + 1], os[i], k),
        os[i] is Err ==> os.len() == i + 1,
{
    if os.len() == i {
        if i > 0 {
            assert(os[i - 1] is Ok);
        }
    }
    if os[i] is Err && os.len() > i + 1 {
        assert(os[i] is Ok);
    }
}

/// Fusion changes no run in exact arithmetic, from a position `i` of the
/// gates `gs` and the position `p` of what fusion made of the gates from
/// `i` on, where the two runs have reached the same amplitudes with the
/// same records.
proof fn lemma_runs_agree_from<
    A,
    W,
    S,
    F: Fn(A, A, A, A) -> A,
    D: Fn(&Vec<A>, &Vec<A>) -> A,
    G: Fn(A) -> W,
    P: Fn(W, W) -> W,
    O: Fn(W) -> (bool, S),
    R: Fn(A, S) -> A,
>(
    gs: Seq<GateModel<A>>,
    fs: Seq<GateModel<A>>,
    i: int,
    p: int,
    nq: usize,
    st: Seq<Seq<A>>,
    os: Seq<Result<Option<(usize, u8)>, SimError>>,
    st2: Seq<Seq<A>>,
    os2: Seq<Result<Option<(usize, u8)>, SimError>>,
    k: Arithmetic<A, W, F, D, G, P, O, R>,
    plus: spec_fn(A, A) -> A,
    times: spec_fn(A, A) -> A,
)
    requires
        nq < usize::BITS,
        arithmetic_is_exact(k, plus, times),
        run_trace(gs, nq, st, os, k),
        run_trace(fs, nq, st2, os2, k),
        0 <= i <= gs.len(),
        0 <= p <= fs.len(),
        fused_from(gs, i, fs.subrange(p, fs.len() as int), k.dot2),
        i <= os.len(),
        p <= os2.len(),
        forall|j: int| 0 <= j < i ==> (#[trigger] os[j]) is Ok,
        forall|j: int| 0 <= j < p ==> (#[trigger] os2[j]) is Ok,
        st[i] == st2[p],
        st[i].len() == dim_of(nq as nat),
        recorded(os.take(i)) == recorded(os2.take(p)),
    ensures
        st.last() == st2.last(),
        run_outcome(os) == run_outcome(os2),
    decreases gs.len() - i,
{
    let tail = fs.subrange(p, fs.len() as int);
    if i >= gs.len() {
        assert(os.take(i) =~= os);
        assert(os2.take(p) =~= os2);
        if os.len() > 0 {
            assert(os[os.len() - 1] is Ok);
        }
        if os2.len() > 0 {
            assert(os2[os2.len() - 1] is Ok);
        }
        return;
    }
    let e = segment_end(gs, i);
    assert(tail.len() > 0);
    let g = tail[0];
    assert(g == fs[p]);
    assert(fused_segment(gs, i, e, g, k.dot2));
    assert(tail.drop_first() =~= fs.subrange(p + 1, fs.len() as int));
    lemma_run_goes_on(gs, nq, st, os, k, i);
    lemma_run_goes_on(fs, nq, st2, os2, k, p);
    if !gs[i].is_single_qubit_op() {
        assert(g == gs[i]);
        lemma_step_unique(gs[i], nq, st[i], st[i + 1], os[i], st2[p + 1], os2[p], k, plus, times);
        if os[i] is Err {
            return;
        }
        lemma_recorded_step(os, i);
        lemma_recorded_step(os2, p);
        lemma_runs_agree_from(gs, fs, i + 1, p + 1, nq, st, os, st2, os2, k, plus, times);
    } else {
        let t = target_of(gs[i]);
        lemma_fused_segment_kind(gs, i, e, g, k.dot2);
        lemma_one_target_verdict(t, nq);
        let op = gs[i]->Operation_0;
        let op2 = g->Operation_0;
        assert(op.targets =~= seq![t]);
        assert(op2.targets =~= seq![t]);
        if t >= nq {
            return;
        }
        lemma_run_end_bounds(gs, t, i + 1);
        assert forall|j: int| i <= j < e implies (#[trigger] gs[j]).is_single_qubit_op_on(t) by {}
        assert forall|j: int| i <= j < e && j < os.len() implies #[trigger] os[j] == Ok::<
            Option<(usize, u8)>,
            SimError,
        >(None) && mat2_applied(st[j], t, mat2_of(gs[j]), k.dot2, st[j + 1]) by {
            let opj = gs[j]->Operation_0;
            assert(opj.targets =~= seq![t]);
            assert(gate_step(gs[j], nq, st[j], st[j + 1], os[j], k));
        }
        if os.len() < e {
            let last = os.len() - 1;
            assert(os[last] == Ok::<Option<(usize, u8)>, SimError>(None));
        }
        let stsub = st.subrange(i, e + 1);
        assert forall|j: int| 0 <= j < stsub.len() - 1 implies #[trigger] stepped(
            gs,
            i,
            stsub,
            t,
            k.dot2,
            j,
        ) by {
            assert(stsub[j] == st[i + j]);
            assert(stsub[j + 1] == st[i + j + 1]);
            assert(os[i + j] == Ok::<Option<(usize, u8)>, SimError>(None));
        }
        assert(gate_step(g, nq, st2[p], st2[p + 1], os2[p], k));
        lemma_fusion_exact(gs, i, e, g, stsub, nq, k.dot2, plus, times, st2[p + 1]);
        assert(stsub.last() == st[e]);
        lemma_recorded_quiet(os, i, e);
        lemma_recorded_step(os2, p);
        assert forall|j: int| 0 <= j < e implies (#[trigger] os[j]) is Ok by {
            if j >= i {
                assert(os[j] == Ok::<Option<(usize, u8)>, SimError>(None));
            }
        }
        lemma_runs_agree_from(gs, fs, e, p + 1, nq, st, os, st2, os2, k, plus, times);
    }
}

/// Fusion changes no run in exact arithmetic: from the same amplitudes, a
/// run of the gates `gs` and a run of what fusion makes of them end in the
/// same amplitudes and report the same (the same measurement records, or
/// the same error), when every closure of the run is a function of its
/// arguments (so that each measurement draws the same outcome).
pub proof fn lemma_fused_run_agrees<
    A,
    W,
    S,
    F: Fn(A, A, A, A) -> A,
    D: Fn(&Vec<A>, &Vec<A>) -> A,
    G: Fn(A) -> W,
    P: Fn(W, W) -> W,
    O: Fn(W) -> (bool, S),
    R: Fn(A, S) -> A,
>(
    gs: Seq<GateModel<A>>,
    fs: Seq<GateModel<A>>,
    nq: usize,
    st: Seq<Seq<A>>,
    os: Seq<Result<Option<(usize, u8)>, SimError>>,
    st2: Seq<Seq<A>>,
    os2: Seq<Result<Option<(usize, u8)>, SimError>>,
    k: Arithmetic<A, W, F, D, G, P, O, R>,
    plus: spec_fn(A, A) -> A,
    times: spec_fn(A, A) -> A,
)
    requires
        nq < usize::BITS,
        arithmetic_is_exact(k, plus, times),
        fused_from(gs, 0, fs, k.dot2),
        run_trace(gs, nq, st, os, k),
        run_trace(fs, nq, st2, os2, k),
        st[0] == st2[0],
        st[0].len() == dim_of(nq as nat),
    ensures
        st.last() == st2.last(),
        run_outcome(os) == run_outcome(os2),
{
    assert(fs.subrange(0, fs.len() as int) =~= fs);
    assert(os.take(0) =~= Seq::<Result<Option<(usize, u8)>, SimError>>::empty());
    assert(os2.take(0) =~= Seq::<Result<Option<(usize, u8)>, SimError>>::empty());
    lemma_runs_agree_from(gs, fs, 0, 0, nq, st, os, st2, os2, k, plus, times);
}

/// Two summings of the weights of two states that agree wherever qubit `q`
/// is set agree on every partial sum.
proof fn lemma_sums_agree_on_set_half<A, W, S, G: Fn(A) -> W, P: Fn(W, W) -> W, O: Fn(W) -> (
    bool,
    S,
), R: Fn(A, S) -> A>(
    old1: Seq<A>,
    old2: Seq<A>,
    q: usize,
    m: Measurement<A, W, G, P, O, R>,
    ws1: Seq<W>,
    ps1: Seq<W>,
    ws2: Seq<W>,
    ps2: Seq<W>,
    i: int,
)
    requires
        measurement_is_function(m),
        old1.len() == old2.len(),
        forall|j: int| 0 <= j < old1.len() && bit(j as usize, q) ==> old1[j] == old2[j],
        weights_summed(old1, q, m.weigh, m.accumulate, m.no_weight, ws1, ps1),
        weights_summed(old2, q, m.weigh, m.accumulate, m.no_weight, ws2, ps2),
        0 <= i <= old1.len(),
    ensures
        ps1[i] == ps2[i],
    decreases i,
{
    if i > 0 {
        lemma_sums_agree_on_set_half(old1, old2, q, m, ws1, ps1, ws2, ps2, i - 1);
        assert(weight_step(old1, q, m.weigh, m.accumulate, ws1, ps1, i - 1));
        assert(weight_step(old2, q, m.weigh, m.accumulate, ws2, ps2, i - 1));
        if bit((i - 1) as usize, q) {
            assert(old1[i - 1] == old2[i - 1]);
            assert(ws1[i - 1] == ws2[i - 1]);
        }
    }
}

/// The outcome of measuring qubit `q` depends only on the amplitudes of the
/// basis states with the qubit set: two states that agree on those are
/// measured with the same outcome, when the closures of the measurement are
/// functions (the same draw).
pub proof fn lemma_outcome_reads_set_half<A, W, S, G: Fn(A) -> W, P: Fn(W, W) -> W, O: Fn(W) -> (
    bool,
    S,
), R: Fn(A, S) -> A>(
    old1: Seq<A>,
    old2: Seq<A>,
    q: usize,
    m: Measurement<A, W, G, P, O, R>,
    one1: bool,
    new1: Seq<A>,
    one2: bool,
    new2: Seq<A>,
)
    requires
        measurement_is_function(m),
        old1.len() == old2.len(),
        forall|j: int| 0 <= j < old1.len() && bit(j as usize, q) ==> old1[j] == old2[j],
        measured(old1, q, one1, m, new1),
        measured(old2, q, one2, m, new2),
    ensures
        one1 == one2,
{
    let (ws1, ps1, sc1) = choose|ws: Seq<W>, ps: Seq<W>, scale: S|
        weights_summed(old1, q, m.weigh, m.accumulate, m.no_weight, ws, ps) && call_ensures(
            m.decide,
            (ps.last(),),
            (one1, scale),
        ) && collapsed(old1, q, one1, scale, m.rescale, m.zero, new1);
    let (ws2, ps2, sc2) = choose|ws: Seq<W>, ps: Seq<W>, scale: S|
        weights_summed(old2, q, m.weigh, m.accumulate, m.no_weight, ws, ps) && call_ensures(
            m.decide,
            (ps.last(),),
            (one2, scale),
        ) && collapsed(old2, q, one2, scale, m.rescale, m.zero, new2);
    lemma_sums_agree_on_set_half(old1, old2, q, m, ws1, ps1, ws2, ps2, old1.len() as int);
    assert(ps1.last() == ps2.last());
    assert((one1, sc1) == (one2, sc2));
}

} // verus!
