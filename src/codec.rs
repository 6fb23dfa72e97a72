//! Index codec: the mixed-radix digits of an index, and the odometer step.
use vstd::prelude::*;

verus! {

/// `base` raised to the power `exp`.
pub open spec fn power(base: nat, exp: nat) -> nat
    decreases exp,
{
    if exp == 0 {
        1
    } else {
        base * power(base, (exp - 1) as nat)
    }
}

/// The `len` digits of `n` in radix `base`, most significant first.
/// Only `n % base^len` is represented: higher digits are dropped.
pub open spec fn to_digits(n: nat, base: nat, len: nat) -> Seq<nat>
    decreases len,
{
    if len == 0 {
        Seq::empty()
    } else {
        to_digits((n / base) as nat, base, (len - 1) as nat).push(n % base)
    }
}

/// The number whose digits in radix `base` are `ds`, most significant first.
pub open spec fn from_digits(ds: Seq<nat>, base: nat) -> nat
    decreases ds.len(),
{
    if ds.len() == 0 {
        0
    } else {
        from_digits(ds.drop_last(), base) * base + ds.last()
    }
}

/// Every digit of `ds` is below `base`.
pub open spec fn digits_valid(ds: Seq<nat>, base: nat) -> bool {
    forall|i: int| 0 <= i < ds.len() ==> #[trigger] ds[i] < base
}

/// A digit vector as held in memory, read as mathematical digits.
pub open spec fn as_nats(v: Seq<usize>) -> Seq<nat> {
    v.map_values(|d: usize| d as nat)
}

/// `len` zero digits.
pub open spec fn zeros(len: nat) -> Seq<nat> {
    Seq::new(len, |_i: int| 0nat)
}

/// `len` copies of the largest digit of radix `base`.
pub open spec fn top_digits(len: nat, base: nat) -> Seq<nat> {
    Seq::new(len, |_i: int| (base - 1) as nat)
}

/// Writing one digit in memory writes the same digit in the view.
pub proof fn lemma_as_nats_update(v: Seq<usize>, i: int, x: usize)
    requires
        0 <= i < v.len(),
    ensures
        as_nats(v.update(i, x)) == as_nats(v).update(i, x as nat),
{
    assert(as_nats(v.update(i, x)) =~= as_nats(v).update(i, x as nat));
}

/// A power of a positive radix is positive.
pub proof fn lemma_power_positive(base: nat, exp: nat)
    requires
        base >= 1,
    ensures
        power(base, exp) >= 1,
    decreases exp,
{
    if exp > 0 {
        lemma_power_positive(base, (exp - 1) as nat);
        assert(base * power(base, (exp - 1) as nat) >= 1) by (nonlinear_arith)
            requires
                base >= 1,
                power(base, (exp - 1) as nat) >= 1,
        ;
    }
}

/// Powers of a positive radix grow with the exponent.
pub proof fn lemma_power_monotone(base: nat, e1: nat, e2: nat)
    requires
        base >= 1,
        e1 <= e2,
    ensures
        power(base, e1) <= power(base, e2),
    decreases e2,
{
    if e1 < e2 {
        lemma_power_monotone(base, e1, (e2 - 1) as nat);
        let p = power(base, (e2 - 1) as nat);
        assert(p <= base * p) by (nonlinear_arith)
            requires
                base >= 1,
        ;
    }
}

/// The digits of any number have the requested length and lie below the radix.
pub proof fn lemma_to_digits_shape(n: nat, base: nat, len: nat)
    requires
        base > 0,
    ensures
        to_digits(n, base, len).len() == len,
        digits_valid(to_digits(n, base, len), base),
    decreases len,
{
    if len > 0 {
        lemma_to_digits_shape((n / base) as nat, base, (len - 1) as nat);
    }
}

/// Reading the digits of `n` back gives `n` modulo `base^len`.
pub proof fn lemma_from_to_digits(n: nat, base: nat, len: nat)
    requires
        base > 0,
    ensures
        from_digits(to_digits(n, base, len), base) == n % power(base, len),
    decreases len,
{
    lemma_to_digits_shape(n, base, len);
    if len == 0 {
        assert(n % 1 == 0) by (nonlinear_arith);
    } else {
        let q = (n / base) as nat;
        let p = power(base, (len - 1) as nat);
        lemma_from_to_digits(q, base, (len - 1) as nat);
        lemma_power_positive(base, (len - 1) as nat);
        let ds = to_digits(n, base, len);
        assert(ds.drop_last() =~= to_digits(q, base, (len - 1) as nat));
        vstd::arithmetic::div_mod::lemma_mod_breakdown(n as int, base as int, p as int);
        assert((q % p) * base == base * (q % p)) by (nonlinear_arith);
    }
}

/// Digits below `base` are the digits of the number they denote,
/// and that number is below `base^len`.
pub proof fn lemma_to_from_digits(ds: Seq<nat>, base: nat)
    requires
        base > 0,
        digits_valid(ds, base),
    ensures
        from_digits(ds, base) < power(base, ds.len()),
        to_digits(from_digits(ds, base), base, ds.len()) == ds,
    decreases ds.len(),
{
    if ds.len() > 0 {
        let pre = ds.drop_last();
        let f = from_digits(pre, base);
        let d = ds.last();
        assert(digits_valid(pre, base)) by {
            assert forall|i: int| 0 <= i < pre.len() implies #[trigger] pre[i] < base by {
                assert(pre[i] == ds[i]);
            }
        }
        lemma_to_from_digits(pre, base);
        assert(d < base) by {
            assert(ds[ds.len() - 1] < base);
        }
        let p = power(base, pre.len());
        assert(f * base + d < base * p) by (nonlinear_arith)
            requires
                f < p,
                d < base,
        ;
        vstd::arithmetic::div_mod::lemma_fundamental_div_mod_converse(
            (f * base + d) as int,
            base as int,
            f as int,
            d as int,
        );
        assert(ds =~= pre.push(d));
    }
}

/// Every index below `base^len` survives the trip through its digits.
pub proof fn lemma_round_trip(index: nat, base: nat, len: nat)
    requires
        base > 0,
        index < power(base, len),
    ensures
        from_digits(to_digits(index, base, len), base) == index,
{
    lemma_from_to_digits(index, base, len);
    vstd::arithmetic::div_mod::lemma_small_mod(index, power(base, len));
}

/// `base^len` itself wraps round to the all-zero digits.
pub proof fn lemma_to_digits_of_power(base: nat, len: nat)
    requires
        base > 0,
    ensures
        to_digits(power(base, len), base, len) == zeros(len),
    decreases len,
{
    if len > 0 {
        let p = power(base, (len - 1) as nat);
        lemma_to_digits_of_power(base, (len - 1) as nat);
        vstd::arithmetic::div_mod::lemma_fundamental_div_mod_converse(
            (base * p) as int,
            base as int,
            p as int,
            0,
        );
        assert((base * p) as int == p * base) by (nonlinear_arith);
        assert(zeros((len - 1) as nat).push(0) =~= zeros(len));
    }
}

/// Trailing zero digits multiply the value by a power of the radix.
pub proof fn lemma_from_digits_zeros(pre: Seq<nat>, base: nat, m: nat)
    ensures
        from_digits(pre + zeros(m), base) == from_digits(pre, base) * power(base, m),
    decreases m,
{
    if m == 0 {
        assert(pre + zeros(0) =~= pre);
        assert(from_digits(pre, base) * 1 == from_digits(pre, base));
    } else {
        let s = pre + zeros(m);
        assert(s.drop_last() =~= pre + zeros((m - 1) as nat));
        assert(s.last() == 0);
        lemma_from_digits_zeros(pre, base, (m - 1) as nat);
        let f = from_digits(pre, base);
        let p = power(base, (m - 1) as nat);
        assert((f * p) * base == f * (base * p)) by (nonlinear_arith);
    }
}

/// Trailing top digits give one less than the next multiple of a power of the radix.
pub proof fn lemma_from_digits_top(pre: Seq<nat>, base: nat, m: nat)
    requires
        base > 0,
    ensures
        from_digits(pre + top_digits(m, base), base) + 1 == (from_digits(pre, base) + 1) * power(
            base,
            m,
        ),
    decreases m,
{
    if m == 0 {
        assert(pre + top_digits(0, base) =~= pre);
        assert((from_digits(pre, base) + 1) * 1 == from_digits(pre, base) + 1);
    } else {
        let s = pre + top_digits(m, base);
        assert(s.drop_last() =~= pre + top_digits((m - 1) as nat, base));
        assert(s.last() == base - 1);
        lemma_from_digits_top(pre, base, (m - 1) as nat);
        let f = from_digits(pre, base);
        let p = power(base, (m - 1) as nat);
        let g = from_digits(pre + top_digits((m - 1) as nat, base), base);
        assert(g * base + (base - 1) + 1 == (f + 1) * (base * p)) by (nonlinear_arith)
            requires
                g + 1 == (f + 1) * p,
        ;
    }
}

/// The digits that follow `ds` under the odometer: those of the next number.
pub open spec fn step_digits(ds: Seq<nat>, base: nat) -> Seq<nat> {
    to_digits(from_digits(ds, base) + 1, base, ds.len())
}

/// Whether stepping `ds` carries past its most significant digit.
pub open spec fn step_wraps(ds: Seq<nat>, base: nat) -> bool {
    from_digits(ds, base) + 1 == power(base, ds.len())
}

/// Stepping the odometer from the digits of `index` gives the digits of
/// `index + 1` for every index but the last; from the last one it wraps
/// round to all zeros, and only there does it report the wrap.
pub proof fn lemma_increment_steps(index: nat, base: nat, len: nat)
    requires
        base > 0,
        index < power(base, len),
    ensures
        step_digits(to_digits(index, base, len), base) == to_digits(index + 1, base, len),
        step_wraps(to_digits(index, base, len), base) <==> index + 1 == power(base, len),
        index + 1 == power(base, len) ==> step_digits(to_digits(index, base, len), base) == zeros(
            len,
        ),
{
    lemma_to_digits_shape(index, base, len);
    lemma_round_trip(index, base, len);
    if index + 1 == power(base, len) {
        lemma_to_digits_of_power(base, len);
    }
}

/// `base^exp` when it fits in 64 bits, and `None` when it does not.
pub fn pow_u64(base: u64, exp: usize) -> (r: Option<u64>)
    ensures
        r == (if power(base as nat, exp as nat) <= u64::MAX {
            Some(power(base as nat, exp as nat) as u64)
        } else {
            None
        }),
{
    let mut acc: u128 = 1;
    let mut i: usize = 0;
    while i < exp
        invariant
            i <= exp,
            acc == power(base as nat, i as nat),
            acc <= u64::MAX,
        decreases exp - i,
    {
        assert(acc * base <= u64::MAX * u64::MAX) by (nonlinear_arith)
            requires
                acc <= u64::MAX,
                base <= u64::MAX,
        ;
        acc = acc * (base as u128);
        i = i + 1;
        assert(acc == power(base as nat, i as nat)) by {
            assert(power(base as nat, i as nat) == base * power(base as nat, (i - 1) as nat));
            assert(base * power(base as nat, (i - 1) as nat) == power(base as nat, (i - 1) as nat)
                * base) by (nonlinear_arith);
        }
        if acc > u64::MAX as u128 {
            proof {
                assert(base >= 1) by {
                    if base == 0 {
                        assert(power(base as nat, i as nat) == 0 * power(
                            base as nat,
                            (i - 1) as nat,
                        ));
                    }
                }
                lemma_power_monotone(base as nat, i as nat, exp as nat);
            }
            return None;
        }
    }
    Some(acc as u64)
}

/// The `len` digits of `index` in radix `base`, most significant first.
pub fn index_to_digits(index: u64, base: usize, len: usize) -> (digits: Vec<usize>)
    requires
        base > 0,
    ensures
        as_nats(digits@) == to_digits(index as nat, base as nat, len as nat),
{
    let mut digits: Vec<usize> = vec![0usize; len];
    let mut rest: u64 = index;
    let mut pos: usize = len;
    proof {
        assert(to_digits(index as nat, base as nat, len as nat) =~= to_digits(
            rest as nat,
            base as nat,
            pos as nat,
        ) + as_nats(digits@).subrange(pos as int, len as int));
    }
    while pos > 0
        invariant
            base > 0,
            pos <= len,
            digits@.len() == len,
            to_digits(index as nat, base as nat, len as nat) == to_digits(
                rest as nat,
                base as nat,
                pos as nat,
            ) + as_nats(digits@).subrange(pos as int, len as int),
        decreases pos,
    {
        let ghost before = digits@;
        let d = rest % (base as u64);
        digits[pos - 1] = d as usize;
        rest = rest / (base as u64);
        pos = pos - 1;
        proof {
            let old_tail = as_nats(before).subrange(pos + 1, len as int);
            assert(as_nats(digits@).subrange(pos as int, len as int) =~= seq![d as nat]
                + old_tail);
            let prev = to_digits(rest as nat, base as nat, pos as nat);
            assert(prev.push(d as nat) + old_tail =~= prev + (seq![d as nat] + old_tail));
        }
    }
    proof {
        assert(as_nats(digits@).subrange(0, len as int) =~= as_nats(digits@));
        assert(to_digits(rest as nat, base as nat, 0) + as_nats(digits@) =~= as_nats(digits@));
    }
    digits
}

/// The index whose digits in radix `base` are `digits`.
pub fn digits_to_index(digits: &Vec<usize>, base: usize) -> (index: u64)
    requires
        base > 0,
        digits_valid(as_nats(digits@), base as nat),
        power(base as nat, digits@.len() as nat) <= u64::MAX,
    ensures
        index == from_digits(as_nats(digits@), base as nat),
{
    let ghost ds = as_nats(digits@);
    let mut acc: u64 = 0;
    let mut i: usize = 0;
    while i < digits.len()
        invariant
            base > 0,
            i <= digits@.len(),
            ds == as_nats(digits@),
            digits_valid(ds, base as nat),
            power(base as nat, digits@.len() as nat) <= u64::MAX,
            acc == from_digits(ds.subrange(0, i as int), base as nat),
        decreases digits@.len() - i,
    {
        let ghost next = ds.subrange(0, i + 1);
        proof {
            assert(next.drop_last() =~= ds.subrange(0, i as int));
            assert(digits_valid(next, base as nat)) by {
                assert forall|j: int| 0 <= j < next.len() implies #[trigger] next[j] < base by {
                    assert(next[j] == ds[j]);
                }
            }
            lemma_to_from_digits(next, base as nat);
            lemma_power_monotone(base as nat, (i + 1) as nat, digits@.len() as nat);
            assert(next.last() == digits@[i as int]);
        }
        acc = acc * (base as u64) + (digits[i] as u64);
        i = i + 1;
    }
    proof {
        assert(ds.subrange(0, digits@.len() as int) =~= ds);
    }
    acc
}

/// Adds one to the least significant digit, carrying toward the most
/// significant; returns whether the carry ran off the front (full wrap).
pub fn odometer_increment(digits: &mut Vec<usize>, base: usize) -> (wrapped: bool)
    requires
        base > 0,
        digits_valid(as_nats(old(digits)@), base as nat),
    ensures
        final(digits)@.len() == old(digits)@.len(),
        as_nats(final(digits)@) == step_digits(as_nats(old(digits)@), base as nat),
        wrapped == step_wraps(as_nats(old(digits)@), base as nat),
{
    let ghost ds = as_nats(digits@);
    let ghost len = ds.len();
    let mut pos: usize = digits.len();
    proof {
        assert(as_nats(digits@) =~= ds.subrange(0, len as int) + zeros(0));
        assert(ds.subrange(len as int, len as int) =~= top_digits(0, base as nat));
    }
    while pos > 0
        invariant
            base > 0,
            pos <= len,
            len == digits@.len(),
            len == ds.len(),
            ds == as_nats(old(digits)@),
            digits_valid(ds, base as nat),
            as_nats(digits@) == ds.subrange(0, pos as int) + zeros((len - pos) as nat),
            ds.subrange(pos as int, len as int) == top_digits((len - pos) as nat, base as nat),
        decreases pos,
    {
        pos = pos - 1;
        assert(as_nats(digits@)[pos as int] == ds[pos as int]);
        assert(as_nats(digits@)[pos as int] == digits@[pos as int] as nat);
        assert(ds[pos as int] < base);
        let v = digits[pos] + 1;
        let ghost prev = digits@;
        if v < base {
            digits[pos] = v;
            proof {
                lemma_as_nats_update(prev, pos as int, v);
                let head = ds.subrange(0, pos as int);
                let m = (len - pos - 1) as nat;
                let bumped = head.push(v as nat);
                assert(as_nats(digits@) =~= bumped + zeros(m));
                assert(ds =~= head.push(ds[pos as int]) + top_digits(m, base as nat));
                lemma_from_digits_top(head.push(ds[pos as int]), base as nat, m);
                lemma_from_digits_zeros(bumped, base as nat, m);
                assert(head.push(ds[pos as int]).drop_last() =~= head);
                assert(bumped.drop_last() =~= head);
                assert(digits_valid(as_nats(digits@), base as nat)) by {
                    assert forall|j: int| 0 <= j < len implies #[trigger] as_nats(digits@)[j]
                        < base by {
                        if j < pos {
                            assert(as_nats(digits@)[j] == ds[j]);
                        }
                    }
                }
                lemma_to_from_digits(as_nats(digits@), base as nat);
                let fh = from_digits(head, base as nat);
                assert(from_digits(bumped, base as nat) == fh * base + ds[pos as int] + 1);
                assert(from_digits(head.push(ds[pos as int]), base as nat) == fh * base
                    + ds[pos as int]);
                assert(from_digits(as_nats(digits@), base as nat) == from_digits(ds, base as nat)
                    + 1);
                assert(as_nats(digits@) == step_digits(ds, base as nat));
                assert(!step_wraps(ds, base as nat));
            }
            return false;
        }
        digits[pos] = 0;
        proof {
            lemma_as_nats_update(prev, pos as int, 0);
            assert(ds[pos as int] == base - 1);
            let old_top = ds.subrange(pos + 1, len as int);
            assert(old_top == top_digits((len - pos - 1) as nat, base as nat));
            assert forall|j: int| 0 <= j < len - pos implies #[trigger] ds.subrange(
                pos as int,
                len as int,
            )[j] == base - 1 by {
                if j > 0 {
                    assert(ds.subrange(pos as int, len as int)[j] == old_top[j - 1]);
                }
            }
            assert(as_nats(digits@) =~= ds.subrange(0, pos as int) + zeros((len - pos) as nat));
            assert(ds.subrange(pos as int, len as int) =~= top_digits(
                (len - pos) as nat,
                base as nat,
            ));
        }
    }
    proof {
        assert(ds =~= Seq::<nat>::empty() + top_digits(len, base as nat));
        assert(from_digits(Seq::<nat>::empty(), base as nat) == 0);
        lemma_from_digits_top(Seq::<nat>::empty(), base as nat, len);
        let p = power(base as nat, len);
        let f0 = from_digits(Seq::<nat>::empty(), base as nat);
        assert((f0 + 1) * p == p) by (nonlinear_arith)
            requires
                f0 == 0,
        ;
        assert(from_digits(Seq::<nat>::empty() + top_digits(len, base as nat), base as nat) + 1
            == power(base as nat, len));
        assert(as_nats(digits@) =~= zeros(len));
        lemma_to_digits_of_power(base as nat, len);
        assert(from_digits(Seq::<nat>::empty(), base as nat) == 0);
        assert(from_digits(ds, base as nat) + 1 == power(base as nat, len));
        assert(as_nats(digits@) == step_digits(ds, base as nat));
    }
    true
}

} // verus!
