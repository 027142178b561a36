//! Basis-state index arithmetic: the dimension of a register of qubits, the
//! test that the qubits of an operation are distinct, and the three maps
//! between a state index and (the part of it outside the targets, the
//! sub-index that the targets spell).
use crate::error::SimError;
use vstd::arithmetic::power2::{pow2, lemma_pow2_pos};
use vstd::bits::{lemma_usize_pow2_no_overflow, lemma_usize_shl_is_mul};
use vstd::prelude::*;

verus! {

/// Bit `k` of `x`.
pub open spec fn bit(x: usize, k: usize) -> bool {
    (x >> k) & 1usize == 1usize
}

/// Every qubit index in `t` names a bit of a `usize`.
pub open spec fn qubits_in_word(t: Seq<usize>) -> bool {
    forall|p: int| 0 <= p < t.len() ==> #[trigger] t[p] < usize::BITS
}

/// No qubit index occurs twice in `t`.
pub open spec fn all_distinct(t: Seq<usize>) -> bool {
    forall|p: int, q: int| 0 <= p < q < t.len() ==> #[trigger] t[p] != #[trigger] t[q]
}

/// `t[i]` occurs again after position `i`.
pub open spec fn has_later_duplicate(t: Seq<usize>, i: int) -> bool {
    exists|j: int| i < j < t.len() && #[trigger] t[j] == t[i]
}

/// `i` is the first position whose qubit occurs again later.
pub open spec fn is_first_duplicate(t: Seq<usize>, i: int) -> bool {
    &&& 0 <= i < t.len()
    &&& has_later_duplicate(t, i)
    &&& forall|i2: int| 0 <= i2 < i ==> !has_later_duplicate(t, i2)
}

/// The verdict on a list of qubits: fine when they are distinct, else the
/// first qubit (by position) that occurs again later.
pub open spec fn uniqueness(t: Seq<usize>) -> Result<(), SimError> {
    if all_distinct(t) {
        Ok(())
    } else {
        Err(SimError::DuplicateQubit { qubit: t[choose|i: int| is_first_duplicate(t, i)] })
    }
}

/// The first duplicate position is the only one.
proof fn lemma_first_duplicate_unique(t: Seq<usize>, i: int)
    requires
        is_first_duplicate(t, i),
    ensures
        (choose|j: int| is_first_duplicate(t, j)) == i,
{
    let j = choose|j: int| is_first_duplicate(t, j);
    assert(is_first_duplicate(t, j));
    if j < i {
        assert(!has_later_duplicate(t, j));
    }
    if i < j {
        assert(!has_later_duplicate(t, i));
    }
}

/// The dimension of the space of `n` qubits.
pub open spec fn dim_of(n: nat) -> nat {
    pow2(n)
}

/// `x` with bit `k` set to `b`.
pub open spec fn with_bit(x: usize, k: usize, b: bool) -> usize {
    if b {
        x | (1usize << k)
    } else {
        x & !(1usize << k)
    }
}

/// `index` with the bits named by `t` cleared, one after the other.
pub open spec fn cleared(index: usize, t: Seq<usize>) -> usize
    decreases t.len(),
{
    if t.len() == 0 {
        index
    } else {
        cleared(index, t.drop_last()) & !(1usize << t.last())
    }
}

/// The bits of `index` at the qubits of `t`, with `t[p]` written at bit
/// `w - 1 - p`, so that `t[0]` is the most significant.
pub open spec fn extract_prefix(index: usize, t: Seq<usize>, w: nat) -> usize
    decreases t.len(),
{
    if t.len() == 0 {
        0
    } else {
        extract_prefix(index, t.drop_last(), w) | (((index >> t.last()) & 1usize) << ((w
            - t.len()) as usize))
    }
}

/// The sub-index that the qubits `t` spell in `index`, `t[0]` most significant.
pub open spec fn extracted(index: usize, t: Seq<usize>) -> usize {
    extract_prefix(index, t, t.len())
}

/// `base` with bit `t[p]` set to bit `w - 1 - p` of `sub`, for each `p` in turn.
pub open spec fn compose_prefix(base: usize, t: Seq<usize>, sub: usize, w: nat) -> usize
    decreases t.len(),
{
    if t.len() == 0 {
        base
    } else {
        with_bit(
            compose_prefix(base, t.drop_last(), sub, w),
            t.last(),
            (sub >> ((w - t.len()) as usize)) & 1usize == 1usize,
        )
    }
}

/// `base` with the qubits `t` set to spell `sub`, `t[0]` most significant.
pub open spec fn composed(base: usize, t: Seq<usize>, sub: usize) -> usize {
    compose_prefix(base, t, sub, t.len())
}

// ---------------------------------------------------------------------------
// Facts about single bits.
// ---------------------------------------------------------------------------
/// Setting, clearing and or-ing a single bit, and bits of shifted single bits.
proof fn lemma_bit_ops(x: usize, y: usize, t: usize, k: usize, s: usize)
    requires
        t < usize::BITS,
        k < usize::BITS,
        s < usize::BITS,
    ensures
        bit(x & !(1usize << t), k) == (bit(x, k) && k != t),
        bit(x | (1usize << t), k) == (bit(x, k) || k == t),
        bit(x | y, k) == (bit(x, k) || bit(y, k)),
        bit(((x >> t) & 1usize) << s, k) == (k == s && bit(x, t)),
        bit(0usize, k) == false,
{
    assert(bit(x & !(1usize << t), k) == (bit(x, k) && k != t)) by (bit_vector)
        requires
            t < usize::BITS,
            k < usize::BITS,
    ;
    assert(bit(x | (1usize << t), k) == (bit(x, k) || k == t)) by (bit_vector)
        requires
            t < usize::BITS,
            k < usize::BITS,
    ;
    assert(bit(x | y, k) == (bit(x, k) || bit(y, k))) by (bit_vector);
    assert(bit(((x >> t) & 1usize) << s, k) == (k == s && bit(x, t))) by (bit_vector)
        requires
            t < usize::BITS,
            k < usize::BITS,
            s < usize::BITS,
    ;
    assert(bit(0usize, k) == false) by (bit_vector);
}

/// Two words with the same bits from `n` upwards agree when shifted right by `n`.
proof fn lemma_shr_eq(a: usize, b: usize, n: usize)
    requires
        n < usize::BITS,
        forall|k: usize| n <= k < usize::BITS ==> bit(a, k) == bit(b, k),
    ensures
        a >> n == b >> n,
    decreases usize::BITS - n,
{
    assert(bit(a, n) == bit(b, n));
    if n + 1 == usize::BITS {
        assert(a >> n == b >> n) by (bit_vector)
            requires
                n + 1 == usize::BITS,
                ((a >> n) & 1usize == 1usize) == ((b >> n) & 1usize == 1usize),
        ;
    } else {
        let n1 = (n + 1) as usize;
        lemma_shr_eq(a, b, n1);
        assert(a >> n == b >> n) by (bit_vector)
            requires
                n + 1 < usize::BITS,
                n1 == n + 1,
                a >> n1 == b >> n1,
                ((a >> n) & 1usize == 1usize) == ((b >> n) & 1usize == 1usize),
        ;
    }
}

/// Two words with the same bits are equal.
pub proof fn lemma_bits_ext(a: usize, b: usize)
    requires
        forall|k: usize| k < usize::BITS ==> bit(a, k) == bit(b, k),
    ensures
        a == b,
{
    lemma_shr_eq(a, b, 0);
    assert(a >> 0usize == a && b >> 0usize == b) by (bit_vector);
}

// ---------------------------------------------------------------------------
// Bit-level descriptions of the three maps.
// ---------------------------------------------------------------------------
/// Bit `k` of `cleared(index, t)` is that of `index`, unless `k` is in `t`.
pub proof fn lemma_cleared_bits(index: usize, t: Seq<usize>)
    requires
        qubits_in_word(t),
    ensures
        forall|k: usize|
            k < usize::BITS ==> #[trigger] bit(cleared(index, t), k) == (bit(index, k)
                && !t.contains(k)),
    decreases t.len(),
{
    if t.len() > 0 {
        let rest = t.drop_last();
        lemma_cleared_bits(index, rest);
        assert forall|k: usize| k < usize::BITS implies #[trigger] bit(cleared(index, t), k) == (
        bit(index, k) && !t.contains(k)) by {
            lemma_bit_ops(cleared(index, rest), 0, t.last(), k, 0);
            if t.contains(k) && k != t.last() {
                let p = choose|p: int| 0 <= p < t.len() && t[p] == k;
                assert(rest[p] == k);
            }
            if rest.contains(k) {
                let p = choose|p: int| 0 <= p < rest.len() && rest[p] == k;
                assert(t[p] == k);
            }
            assert(t[t.len() - 1] == t.last());
        }
    }
}

/// Bit `k` of `extract_prefix(index, t, w)` is bit `t[w - 1 - k]` of `index`
/// for `w - t.len() <= k < w`, and clear elsewhere.
pub proof fn lemma_extract_prefix_bits(index: usize, t: Seq<usize>, w: nat)
    requires
        qubits_in_word(t),
        t.len() <= w <= usize::BITS,
    ensures
        forall|k: usize|
            k < usize::BITS ==> #[trigger] bit(extract_prefix(index, t, w), k) == (w - t.len() <= k
                < w && bit(index, t[w - 1 - k])),
    decreases t.len(),
{
    if t.len() == 0 {
        assert forall|k: usize| k < usize::BITS implies #[trigger] bit(
            extract_prefix(index, t, w),
            k,
        ) == (w - t.len() <= k && k < w && bit(index, t[w - 1 - k])) by {
            lemma_bit_ops(0, 0, 0, k, 0);
        }
    } else {
        let rest = t.drop_last();
        lemma_extract_prefix_bits(index, rest, w);
        let s = (w - t.len()) as usize;
        let last = t.last();
        assert(t[t.len() - 1] == last);
        assert forall|k: usize| k < usize::BITS implies #[trigger] bit(
            extract_prefix(index, t, w),
            k,
        ) == (w - t.len() <= k && k < w && bit(index, t[w - 1 - k])) by {
            let prev = extract_prefix(index, rest, w);
            let term = ((index >> last) & 1usize) << s;
            // The new term holds bit `last` of `index` at bit `s`; the
            // earlier ones hold the bits above `s`.
            lemma_bit_ops(prev, term, last, k, s);
            lemma_bit_ops(index, 0, last, k, s);
            if w - rest.len() <= k && k < w {
                assert(rest[w - 1 - k] == t[w - 1 - k]);
            }
        }
    }
}

/// Bit `k` of `extracted(index, t)` is bit `t[t.len() - 1 - k]` of `index`
/// below `t.len()`, and clear from there on.
pub proof fn lemma_extracted_bits(index: usize, t: Seq<usize>)
    requires
        qubits_in_word(t),
        t.len() <= usize::BITS,
    ensures
        forall|k: usize|
            k < usize::BITS ==> #[trigger] bit(extracted(index, t), k) == (k < t.len() && bit(
                index,
                t[t.len() - 1 - k],
            )),
{
    lemma_extract_prefix_bits(index, t, t.len());
}

/// Bit `k` of `compose_prefix(base, t, sub, w)`: for a qubit `t[p]` it is bit
/// `w - 1 - p` of `sub`, elsewhere that of `base`.
pub proof fn lemma_compose_prefix_bits(base: usize, t: Seq<usize>, sub: usize, w: nat)
    requires
        qubits_in_word(t),
        all_distinct(t),
        t.len() <= w <= usize::BITS,
    ensures
        forall|p: int|
            0 <= p < t.len() ==> #[trigger] bit(compose_prefix(base, t, sub, w), t[p]) == bit(
                sub,
                (w - 1 - p) as usize,
            ),
        forall|k: usize|
            k < usize::BITS && !t.contains(k) ==> #[trigger] bit(
                compose_prefix(base, t, sub, w),
                k,
            ) == bit(base, k),
    decreases t.len(),
{
    if t.len() > 0 {
        let rest = t.drop_last();
        assert(qubits_in_word(rest));
        assert(all_distinct(rest));
        lemma_compose_prefix_bits(base, rest, sub, w);
        let prev = compose_prefix(base, rest, sub, w);
        let s = (w - t.len()) as usize;
        let last = t.last();
        let b = (sub >> s) & 1usize == 1usize;
        assert(t[t.len() - 1] == last);
        assert forall|p: int| 0 <= p < t.len() implies #[trigger] bit(
            compose_prefix(base, t, sub, w),
            t[p],
        ) == bit(sub, (w - 1 - p) as usize) by {
            lemma_bit_ops(prev, 0, last, t[p], 0);
            if p < t.len() - 1 {
                assert(rest[p] == t[p]);
                assert(t[p] != t[t.len() - 1]);
            }
        }
        assert forall|k: usize| k < usize::BITS && !t.contains(k) implies #[trigger] bit(
            compose_prefix(base, t, sub, w),
            k,
        ) == bit(base, k) by {
            lemma_bit_ops(prev, 0, last, k, 0);
            if rest.contains(k) {
                let p = choose|p: int| 0 <= p < rest.len() && rest[p] == k;
                assert(t[p] == k);
            }
        }
    }
}

/// Bit `k` of `composed(base, t, sub)`.
pub proof fn lemma_composed_bits(base: usize, t: Seq<usize>, sub: usize)
    requires
        qubits_in_word(t),
        all_distinct(t),
        t.len() <= usize::BITS,
    ensures
        forall|p: int|
            0 <= p < t.len() ==> #[trigger] bit(composed(base, t, sub), t[p]) == bit(
                sub,
                (t.len() - 1 - p) as usize,
            ),
        forall|k: usize|
            k < usize::BITS && !t.contains(k) ==> #[trigger] bit(composed(base, t, sub), k) == bit(
                base,
                k,
            ),
{
    lemma_compose_prefix_bits(base, t, sub, t.len());
}

/// A word below `2^w` has no bit set from `w` upwards.
pub proof fn lemma_below_pow2_bits(s: usize, w: nat)
    requires
        w <= usize::BITS,
        s < pow2(w),
    ensures
        forall|k: usize| w <= k < usize::BITS ==> !#[trigger] bit(s, k),
{
    if w < usize::BITS {
        let wu = w as usize;
        lemma_usize_pow2_no_overflow(w);
        lemma_usize_shl_is_mul(1, wu);
        assert forall|k: usize| w <= k < usize::BITS implies !#[trigger] bit(s, k) by {
            assert(!bit(s, k)) by (bit_vector)
                requires
                    wu < usize::BITS,
                    wu <= k < usize::BITS,
                    s < (1usize << wu),
            ;
        }
    }
}

/// A word with no bit set from `w` upwards is below `2^w`.
pub proof fn lemma_bits_below_pow2(x: usize, w: nat)
    requires
        w <= usize::BITS,
        forall|k: usize| w <= k < usize::BITS ==> !#[trigger] bit(x, k),
    ensures
        x < pow2(w),
{
    vstd::arithmetic::power2::lemma2_to64();
    vstd::arithmetic::power2::lemma2_to64_rest();
    if w == usize::BITS {
        assert(pow2(w) > usize::MAX);
    } else {
        let wu = w as usize;
        assert forall|k: usize| wu <= k < usize::BITS implies bit(x, k) == bit(0usize, k) by {
            assert(!bit(0usize, k)) by (bit_vector);
        }
        lemma_shr_eq(x, 0, wu);
        lemma_usize_pow2_no_overflow(w);
        lemma_usize_shl_is_mul(1, wu);
        assert(x < (1usize << wu)) by (bit_vector)
            requires
                wu < usize::BITS,
                x >> wu == 0usize >> wu,
        ;
    }
}

/// `extract_prefix(index, t, w)` is below `2^w`.
proof fn lemma_extract_prefix_bound(index: usize, t: Seq<usize>, w: nat)
    requires
        qubits_in_word(t),
        t.len() <= w <= usize::BITS,
    ensures
        extract_prefix(index, t, w) < pow2(w),
    decreases t.len(),
{
    lemma_pow2_pos(w);
    if w == usize::BITS {
        vstd::arithmetic::power2::lemma2_to64();
        vstd::arithmetic::power2::lemma2_to64_rest();
        assert(usize::BITS == 32 || usize::BITS == 64);
        assert(pow2(w) > usize::MAX);
    } else if t.len() > 0 {
        let rest = t.drop_last();
        lemma_extract_prefix_bound(index, rest, w);
        let prev = extract_prefix(index, rest, w);
        let s = (w - t.len()) as usize;
        let wu = w as usize;
        let last = t.last();
        assert(t[t.len() - 1] == last);
        lemma_usize_pow2_no_overflow(w);
        lemma_usize_shl_is_mul(1, wu);
        assert((prev | (((index >> last) & 1usize) << s)) < (1usize << wu)) by (bit_vector)
            requires
                wu < usize::BITS,
                s < wu,
                prev < (1usize << wu),
        ;
    }
}

// ---------------------------------------------------------------------------
// Laws.
// ---------------------------------------------------------------------------
/// The sub-index of any index is below `2^t.len()`.
pub proof fn lemma_extracted_bound(index: usize, t: Seq<usize>)
    requires
        qubits_in_word(t),
        t.len() <= usize::BITS,
    ensures
        extracted(index, t) < pow2(t.len()),
{
    lemma_extract_prefix_bound(index, t, t.len());
}

/// Splitting an index into the part outside the targets and the sub-index
/// that the targets spell, and composing the two again, gives the index back.
pub proof fn lemma_compose_clear_extract(index: usize, t: Seq<usize>)
    requires
        qubits_in_word(t),
        all_distinct(t),
        t.len() <= usize::BITS,
    ensures
        composed(cleared(index, t), t, extracted(index, t)) == index,
{
    let c = cleared(index, t);
    let s = extracted(index, t);
    let r = composed(c, t, s);
    lemma_cleared_bits(index, t);
    lemma_extracted_bits(index, t);
    lemma_composed_bits(c, t, s);
    assert forall|k: usize| k < usize::BITS implies bit(r, k) == bit(index, k) by {
        if t.contains(k) {
            let p = choose|p: int| 0 <= p < t.len() && t[p] == k;
            let j = (t.len() - 1 - p) as usize;
            assert(bit(r, t[p]) == bit(s, j));
            assert(t[t.len() - 1 - j] == t[p]);
        } else {
            assert(bit(r, k) == bit(c, k));
        }
    }
    lemma_bits_ext(r, index);
}

/// Composing a sub-index below `2^t.len()` into any base and extracting it
/// again gives the sub-index back.
pub proof fn lemma_extract_composed(base: usize, t: Seq<usize>, sub: usize)
    requires
        qubits_in_word(t),
        all_distinct(t),
        t.len() <= usize::BITS,
        sub < pow2(t.len()),
    ensures
        extracted(composed(base, t, sub), t) == sub,
{
    let r = composed(base, t, sub);
    let e = extracted(r, t);
    lemma_composed_bits(base, t, sub);
    lemma_extracted_bits(r, t);
    lemma_below_pow2_bits(sub, t.len());
    assert forall|k: usize| k < usize::BITS implies bit(e, k) == bit(sub, k) by {
        if k < t.len() {
            let p = t.len() - 1 - k;
            assert(bit(r, t[p]) == bit(sub, (t.len() - 1 - p) as usize));
        }
    }
    lemma_bits_ext(e, sub);
}

/// Composing a sub-index into a base leaves the base's bits outside the
/// targets as they were.
pub proof fn lemma_clear_composed(base: usize, t: Seq<usize>, sub: usize)
    requires
        qubits_in_word(t),
        all_distinct(t),
        t.len() <= usize::BITS,
    ensures
        cleared(composed(base, t, sub), t) == cleared(base, t),
{
    let r = composed(base, t, sub);
    lemma_composed_bits(base, t, sub);
    lemma_cleared_bits(r, t);
    lemma_cleared_bits(base, t);
    assert forall|k: usize| k < usize::BITS implies bit(cleared(r, t), k) == bit(
        cleared(base, t),
        k,
    ) by {}
    lemma_bits_ext(cleared(r, t), cleared(base, t));
}

/// Distinct sub-indices below `2^t.len()` give distinct indices over one base.
pub proof fn lemma_composed_injective(base: usize, t: Seq<usize>, s1: usize, s2: usize)
    requires
        qubits_in_word(t),
        all_distinct(t),
        t.len() <= usize::BITS,
        s1 < pow2(t.len()),
        s2 < pow2(t.len()),
        s1 != s2,
    ensures
        composed(base, t, s1) != composed(base, t, s2),
{
    lemma_extract_composed(base, t, s1);
    lemma_extract_composed(base, t, s2);
}

/// Two equal entries at `i < j` make `i` have a later duplicate and the
/// sequence not distinct.
proof fn lemma_duplicate_found(t: Seq<usize>, i: int, j: int)
    requires
        0 <= i < j < t.len(),
        t[i] == t[j],
    ensures
        has_later_duplicate(t, i),
        !all_distinct(t),
{
    assert(t[j] == t[i]);
}

// ---------------------------------------------------------------------------
// Executable functions.
// ---------------------------------------------------------------------------
/// The dimension `2^num_qubits` of the space of `num_qubits` qubits. Like a
/// shift by `num_qubits as u32`, it takes the count modulo `2^32`.
pub fn matrix_dim(num_qubits: usize) -> (r: Result<usize, SimError>)
    ensures
        ((num_qubits as u32) < usize::BITS) ==> (r matches Ok(d) && d == dim_of(
            (num_qubits as u32) as nat,
        )),
        !((num_qubits as u32) < usize::BITS) ==> r == Err::<usize, SimError>(
            SimError::TooManyQubits { num_qubits },
        ),
{
    let shift: u32 = num_qubits as u32;
    if shift < usize::BITS {
        proof {
            lemma_usize_pow2_no_overflow(shift as nat);
            lemma_usize_shl_is_mul(1, shift as usize);
        }
        Ok(1usize << shift)
    } else {
        Err(SimError::TooManyQubits { num_qubits })
    }
}

/// Refuses a list of qubits in which one occurs twice, naming the first
/// qubit (by position) that occurs again later.
pub fn ensure_unique_qubits(qubits: &[usize]) -> (r: Result<(), SimError>)
    ensures
        r == uniqueness(qubits@),
{
    let n = qubits.len();
    let mut i: usize = 0;
    while i < n
        invariant
            n == qubits@.len(),
            i <= n,
            forall|i2: int| 0 <= i2 < i ==> !has_later_duplicate(qubits@, i2),
        decreases n - i,
    {
        let lhs = qubits[i];
        let mut j: usize = i + 1;
        while j < n
            invariant
                n == qubits@.len(),
                i < n,
                i + 1 <= j <= n,
                lhs == qubits@[i as int],
                forall|i2: int| 0 <= i2 < i ==> !has_later_duplicate(qubits@, i2),
                forall|j2: int| i < j2 < j ==> qubits@[j2] != lhs,
            decreases n - j,
        {
            if qubits[j] == lhs {
                proof {
                    lemma_duplicate_found(qubits@, i as int, j as int);
                    assert(is_first_duplicate(qubits@, i as int));
                    lemma_first_duplicate_unique(qubits@, i as int);
                }
                return Err(SimError::DuplicateQubit { qubit: lhs });
            }
            j = j + 1;
        }
        proof {
            assert(!has_later_duplicate(qubits@, i as int));
        }
        i = i + 1;
    }
    proof {
        assert forall|p: int, q: int| 0 <= p < q < qubits@.len() implies #[trigger] qubits@[p]
            != #[trigger] qubits@[q] by {
            assert(!has_later_duplicate(qubits@, p));
        }
    }
    Ok(())
}

/// `index` with the bits of the target qubits cleared.
pub fn clear_target_bits(index: usize, targets: &[usize]) -> (r: usize)
    requires
        qubits_in_word(targets@),
    ensures
        r == cleared(index, targets@),
        forall|k: usize|
            k < usize::BITS ==> #[trigger] bit(r, k) == (bit(index, k) && !targets@.contains(k)),
{
    let mut r = index;
    let mut i: usize = 0;
    while i < targets.len()
        invariant
            qubits_in_word(targets@),
            i <= targets@.len(),
            r == cleared(index, targets@.take(i as int)),
        decreases targets@.len() - i,
    {
        let target = targets[i];
        proof {
            assert(targets@.take(i + 1).drop_last() =~= targets@.take(i as int));
            assert(targets@.take(i + 1).last() == targets@[i as int]);
        }
        r = r & !(1usize << target);
        i = i + 1;
    }
    proof {
        assert(targets@.take(i as int) =~= targets@);
        lemma_cleared_bits(index, targets@);
    }
    r
}

/// The sub-index that the target qubits spell in `index`: bit
/// `targets.len() - 1 - p` of the result is the bit of `index` at
/// `targets[p]`, so the first target is the most significant.
pub fn extract_sub_index(index: usize, targets: &[usize]) -> (r: usize)
    requires
        qubits_in_word(targets@),
        targets@.len() <= usize::BITS,
    ensures
        r == extracted(index, targets@),
        r < dim_of(targets@.len()),
        forall|k: usize|
            k < usize::BITS ==> #[trigger] bit(r, k) == (k < targets@.len() && bit(
                index,
                targets@[targets@.len() - 1 - k],
            )),
{
    let width = targets.len();
    let mut sub: usize = 0;
    let mut i: usize = 0;
    while i < width
        invariant
            qubits_in_word(targets@),
            width == targets@.len(),
            width <= usize::BITS,
            i <= width,
            sub == extract_prefix(index, targets@.take(i as int), width as nat),
        decreases width - i,
    {
        let target = targets[i];
        let b = (index >> target) & 1usize;
        proof {
            assert(targets@.take(i + 1).drop_last() =~= targets@.take(i as int));
            assert(targets@.take(i + 1).last() == targets@[i as int]);
        }
        sub = sub | (b << (width - 1 - i));
        i = i + 1;
    }
    proof {
        assert(targets@.take(i as int) =~= targets@);
        lemma_extracted_bits(index, targets@);
        lemma_extracted_bound(index, targets@);
    }
    sub
}

/// `base` with the target qubits set to spell `sub_index`: the bit at
/// `targets[p]` becomes bit `targets.len() - 1 - p` of `sub_index`, one
/// target after the other.
pub fn compose_index(base: usize, targets: &[usize], sub_index: usize) -> (r: usize)
    requires
        qubits_in_word(targets@),
        targets@.len() <= usize::BITS,
    ensures
        r == composed(base, targets@, sub_index),
        all_distinct(targets@) ==> forall|p: int|
            0 <= p < targets@.len() ==> #[trigger] bit(r, targets@[p]) == bit(
                sub_index,
                (targets@.len() - 1 - p) as usize,
            ),
        all_distinct(targets@) ==> forall|k: usize|
            k < usize::BITS && !targets@.contains(k) ==> #[trigger] bit(r, k) == bit(base, k),
{
    let width = targets.len();
    let mut index = base;
    let mut i: usize = 0;
    while i < width
        invariant
            qubits_in_word(targets@),
            width == targets@.len(),
            width <= usize::BITS,
            i <= width,
            index == compose_prefix(base, targets@.take(i as int), sub_index, width as nat),
        decreases width - i,
    {
        let target = targets[i];
        let b = (sub_index >> (width - 1 - i)) & 1usize;
        proof {
            assert(targets@.take(i + 1).drop_last() =~= targets@.take(i as int));
            assert(targets@.take(i + 1).last() == targets@[i as int]);
        }
        if b == 1 {
            index = index | (1usize << target);
        } else {
            index = index & !(1usize << target);
        }
        i = i + 1;
    }
    proof {
        assert(targets@.take(i as int) =~= targets@);
        if all_distinct(targets@) {
            lemma_composed_bits(base, targets@, sub_index);
        }
    }
    index
}

} // verus!
