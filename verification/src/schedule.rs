//! The mathematical model of the dispatch schedule.
//!
//! A schedule for weights `w_0 .. w_{n-1}` is produced by the smooth weighted
//! round-robin rule: every candidate keeps a running credit, each step adds
//! every candidate's weight to its credit, the candidate with the highest
//! credit (lowest index on a tie) is chosen, and the total weight is then
//! subtracted from the winner's credit.  The schedule lists the choices of
//! the first `lcm(w_0, .., w_{n-1}) + 1` steps, starting from credits equal
//! to the weights.

use vstd::prelude::*;

verus! {

/// Sum of a sequence of integers.
pub open spec fn seq_sum(s: Seq<int>) -> int
    decreases s.len(),
{
    if s.len() == 0 {
        0
    } else {
        s[0] + seq_sum(s.drop_first())
    }
}

/// Product of a sequence of integers.
pub open spec fn seq_product(s: Seq<int>) -> int
    decreases s.len(),
{
    if s.len() == 0 {
        1
    } else {
        seq_product(s.drop_last()) * s.last()
    }
}

/// Greatest common divisor, by Euclid's rule.
pub open spec fn spec_gcd(a: int, b: int) -> int
    decreases b,
{
    if b <= 0 {
        a
    } else {
        spec_gcd(b, a % b)
    }
}

/// Least common multiple of two positive integers.
pub open spec fn spec_lcm(a: int, b: int) -> int {
    a * (b / spec_gcd(a, b))
}

/// The least common multiple of all entries, folded from the left
/// starting at 1.
pub open spec fn fold_lcm(s: Seq<int>) -> int
    decreases s.len(),
{
    if s.len() == 0 {
        1
    } else {
        spec_lcm(fold_lcm(s.drop_last()), s.last())
    }
}

/// Every entry is a positive weight.
pub open spec fn wts_ok(ws: Seq<int>) -> bool {
    forall|i: int| 0 <= i < ws.len() ==> 1 <= #[trigger] ws[i]
}

/// Credits added pointwise with the weights.
pub open spec fn bump(cur: Seq<int>, ws: Seq<int>) -> Seq<int> {
    Seq::new(cur.len(), |i: int| cur[i] + ws[i])
}

/// The index of the greatest entry among `s[0 .. k]`, the lowest such
/// index on a tie.
pub open spec fn best_upto(s: Seq<int>, k: int) -> int
    decreases k,
{
    if k <= 1 {
        0
    } else if s[best_upto(s, k - 1)] < s[k - 1] {
        k - 1
    } else {
        best_upto(s, k - 1)
    }
}

/// The index the rule chooses out of a credit sequence.
pub open spec fn pick_index(s: Seq<int>) -> int {
    best_upto(s, s.len() as int)
}

/// One step of the rule: bump the credits, charge the winner the total
/// weight.
pub open spec fn step_credits(ws: Seq<int>, cur: Seq<int>) -> Seq<int> {
    let b = bump(cur, ws);
    b.update(pick_index(b), b[pick_index(b)] - seq_sum(ws))
}

/// The credits before step `t`, starting from credits equal to the weights.
pub open spec fn credits_at(ws: Seq<int>, t: nat) -> Seq<int>
    decreases t,
{
    if t == 0 {
        ws
    } else {
        step_credits(ws, credits_at(ws, (t - 1) as nat))
    }
}

/// The candidate index chosen at step `t`.
pub open spec fn choice_at(ws: Seq<int>, t: nat) -> int {
    pick_index(bump(credits_at(ws, t), ws))
}

/// The state invariant of the credit sequence: same length as the weights,
/// total equal to the total weight, and no credit below `1 - total`.
pub open spec fn credits_ok(ws: Seq<int>, cur: Seq<int>) -> bool {
    &&& cur.len() == ws.len()
    &&& seq_sum(cur) == seq_sum(ws)
    &&& forall|i: int| 0 <= i < cur.len() ==> 1 - seq_sum(ws) <= #[trigger] cur[i]
}

/// A sequence of machine integers read as mathematical integers.
pub open spec fn ints_of_usizes(s: Seq<usize>) -> Seq<int> {
    Seq::new(s.len(), |i: int| s[i] as int)
}

/// A sequence of signed machine integers read as mathematical integers.
pub open spec fn ints_of_isizes(s: Seq<isize>) -> Seq<int> {
    Seq::new(s.len(), |i: int| s[i] as int)
}

pub proof fn lemma_sum_push(s: Seq<int>, x: int)
    ensures
        seq_sum(s.push(x)) == seq_sum(s) + x,
    decreases s.len(),
{
    if s.len() == 0 {
        assert(s.push(x).drop_first() =~= Seq::<int>::empty());
        assert(s.push(x)[0] == x);
        assert(seq_sum(Seq::<int>::empty()) == 0);
        assert(seq_sum(s) == 0);
    } else {
        assert(s.push(x).drop_first() =~= s.drop_first().push(x));
        assert(s.push(x)[0] == s[0]);
        lemma_sum_push(s.drop_first(), x);
    }
}

pub proof fn lemma_sum_update(s: Seq<int>, k: int, v: int)
    requires
        0 <= k < s.len(),
    ensures
        seq_sum(s.update(k, v)) == seq_sum(s) - s[k] + v,
    decreases s.len(),
{
    if k == 0 {
        assert(s.update(0, v).drop_first() =~= s.drop_first());
    } else {
        assert(s.update(k, v).drop_first() =~= s.drop_first().update(k - 1, v));
        lemma_sum_update(s.drop_first(), k - 1, v);
    }
}

pub proof fn lemma_sum_bump(cur: Seq<int>, ws: Seq<int>)
    requires
        cur.len() == ws.len(),
    ensures
        seq_sum(bump(cur, ws)) == seq_sum(cur) + seq_sum(ws),
    decreases cur.len(),
{
    if cur.len() > 0 {
        assert(bump(cur, ws).drop_first() =~= bump(cur.drop_first(), ws.drop_first()));
        lemma_sum_bump(cur.drop_first(), ws.drop_first());
    }
}

pub proof fn lemma_sum_lower(s: Seq<int>, lo: int)
    requires
        forall|i: int| 0 <= i < s.len() ==> lo <= #[trigger] s[i],
    ensures
        s.len() * lo <= seq_sum(s),
    decreases s.len(),
{
    if s.len() == 0 {
    } else {
        lemma_sum_lower(s.drop_first(), lo);
        assert(s.len() * lo == (s.len() - 1) * lo + lo) by (nonlinear_arith);
    }
}

pub proof fn lemma_sum_upper(s: Seq<int>, hi: int)
    requires
        forall|i: int| 0 <= i < s.len() ==> #[trigger] s[i] <= hi,
    ensures
        seq_sum(s) <= s.len() * hi,
    decreases s.len(),
{
    if s.len() == 0 {
    } else {
        lemma_sum_upper(s.drop_first(), hi);
        assert(s.len() * hi == (s.len() - 1) * hi + hi) by (nonlinear_arith);
    }
}

pub proof fn lemma_sum_take_step(s: Seq<int>, i: int)
    requires
        0 <= i < s.len(),
    ensures
        seq_sum(s.take(i + 1)) == seq_sum(s.take(i)) + s[i],
{
    assert(s.take(i + 1) =~= s.take(i).push(s[i]));
    lemma_sum_push(s.take(i), s[i]);
}

pub proof fn lemma_sum_take_le(s: Seq<int>, i: int)
    requires
        0 <= i <= s.len(),
        forall|j: int| 0 <= j < s.len() ==> 0 <= #[trigger] s[j],
    ensures
        seq_sum(s.take(i)) <= seq_sum(s),
    decreases s.len() - i,
{
    if i == s.len() {
        assert(s.take(i) =~= s);
    } else {
        lemma_sum_take_step(s, i);
        lemma_sum_take_le(s, i + 1);
    }
}

/// Every entry of a sequence with a lower bound on the others is capped by
/// the total.
pub proof fn lemma_elem_upper(s: Seq<int>, k: int, lo: int)
    requires
        0 <= k < s.len(),
        forall|i: int| 0 <= i < s.len() ==> lo <= #[trigger] s[i],
    ensures
        s[k] <= seq_sum(s) - (s.len() - 1) * lo,
{
    let t = s.update(k, lo);
    lemma_sum_update(s, k, lo);
    assert(forall|i: int| 0 <= i < t.len() ==> lo <= #[trigger] t[i]);
    lemma_sum_lower(t, lo);
    assert(s.len() * lo - lo == (s.len() - 1) * lo) by (nonlinear_arith);
}

pub proof fn lemma_sum_remove(s: Seq<int>, k: int)
    requires
        0 <= k < s.len(),
    ensures
        seq_sum(s.remove(k)) == seq_sum(s) - s[k],
    decreases s.len(),
{
    if k == 0 {
        assert(s.remove(0) =~= s.drop_first());
    } else {
        assert(s.remove(k).drop_first() =~= s.drop_first().remove(k - 1));
        lemma_sum_remove(s.drop_first(), k - 1);
    }
}

pub proof fn lemma_product_remove(s: Seq<int>, k: int)
    requires
        0 <= k < s.len(),
    ensures
        seq_product(s) == seq_product(s.remove(k)) * s[k],
{
    let a = s.take(k);
    let m = seq![s[k]];
    let z = s.skip(k + 1);
    assert(s =~= (a + m) + z);
    assert(s.remove(k) =~= a + z);
    lemma_product_concat(a + m, z);
    lemma_product_concat(a, m);
    lemma_product_concat(a, z);
    assert(m.drop_last() =~= Seq::<int>::empty());
    assert(seq_product(Seq::<int>::empty()) == 1);
    assert(m.last() == s[k]);
    assert(seq_product(m) == s[k]);
    assert((seq_product(a) * s[k]) * seq_product(z) == (seq_product(a) * seq_product(z)) * s[k])
        by (nonlinear_arith);
}

pub proof fn lemma_gcd_bounds(a: int, b: int)
    requires
        1 <= a,
        0 <= b,
    ensures
        1 <= spec_gcd(a, b),
        1 <= b ==> spec_gcd(a, b) <= b,
    decreases b,
{
    if b == 0 {
    } else {
        lemma_gcd_bounds(b, a % b);
    }
}

pub proof fn lemma_lcm_bounds(a: int, b: int)
    requires
        1 <= a,
        1 <= b,
    ensures
        a <= spec_lcm(a, b),
        spec_lcm(a, b) <= a * b,
        1 <= spec_lcm(a, b),
{
    lemma_gcd_bounds(a, b);
    let g = spec_gcd(a, b);
    assert(1 <= b / g && b / g <= b) by (nonlinear_arith)
        requires
            1 <= g,
            g <= b,
    ;
    assert(a <= a * (b / g) && a * (b / g) <= a * b) by (nonlinear_arith)
        requires
            1 <= a,
            1 <= b / g,
            b / g <= b,
    ;
}

pub proof fn lemma_product_concat(a: Seq<int>, b: Seq<int>)
    ensures
        seq_product(a + b) == seq_product(a) * seq_product(b),
    decreases b.len(),
{
    if b.len() == 0 {
        assert(a + b =~= a);
    } else {
        assert((a + b).drop_last() =~= a + b.drop_last());
        lemma_product_concat(a, b.drop_last());
        assert((seq_product(a) * seq_product(b.drop_last())) * b.last() == seq_product(a) * (
        seq_product(b.drop_last()) * b.last())) by (nonlinear_arith);
    }
}

pub proof fn lemma_product_pos(s: Seq<int>)
    requires
        wts_ok(s),
    ensures
        1 <= seq_product(s),
    decreases s.len(),
{
    if s.len() > 0 {
        assert(wts_ok(s.drop_last()));
        lemma_product_pos(s.drop_last());
        assert(1 <= seq_product(s.drop_last()) * s.last()) by (nonlinear_arith)
            requires
                1 <= seq_product(s.drop_last()),
                1 <= s.last(),
        ;
    }
}

pub proof fn lemma_product_nonneg(s: Seq<int>)
    requires
        forall|i: int| 0 <= i < s.len() ==> 0 <= #[trigger] s[i],
    ensures
        0 <= seq_product(s),
    decreases s.len(),
{
    if s.len() > 0 {
        lemma_product_nonneg(s.drop_last());
        assert(0 <= seq_product(s.drop_last()) * s.last()) by (nonlinear_arith)
            requires
                0 <= seq_product(s.drop_last()),
                0 <= s.last(),
        ;
    }
}

pub proof fn lemma_fold_lcm_le_product(s: Seq<int>)
    requires
        wts_ok(s),
    ensures
        1 <= fold_lcm(s),
        fold_lcm(s) <= seq_product(s),
    decreases s.len(),
{
    if s.len() == 0 {
    } else {
        assert(wts_ok(s.drop_last()));
        lemma_fold_lcm_le_product(s.drop_last());
        lemma_product_pos(s.drop_last());
        let f = fold_lcm(s.drop_last());
        let p = seq_product(s.drop_last());
        lemma_lcm_bounds(f, s.last());
        assert(f * s.last() <= p * s.last()) by (nonlinear_arith)
            requires
                f <= p,
                1 <= s.last(),
        ;
    }
}

pub proof fn lemma_fold_lcm_take_step(s: Seq<int>, i: int)
    requires
        0 <= i < s.len(),
    ensures
        fold_lcm(s.take(i + 1)) == spec_lcm(fold_lcm(s.take(i)), s[i]),
{
    assert(s.take(i + 1).drop_last() =~= s.take(i));
    assert(s.take(i + 1).last() == s[i]);
}

/// The folded least common multiple of a prefix never exceeds that of the
/// whole sequence.
pub proof fn lemma_fold_lcm_prefix(s: Seq<int>, i: int)
    requires
        wts_ok(s),
        0 <= i <= s.len(),
    ensures
        1 <= fold_lcm(s.take(i)),
        fold_lcm(s.take(i)) <= fold_lcm(s),
    decreases s.len() - i,
{
    assert(wts_ok(s.take(i)));
    lemma_fold_lcm_le_product(s.take(i));
    if i == s.len() {
        assert(s.take(i) =~= s);
    } else {
        lemma_fold_lcm_take_step(s, i);
        lemma_lcm_bounds(fold_lcm(s.take(i)), s[i]);
        lemma_fold_lcm_prefix(s, i + 1);
    }
}

pub proof fn lemma_best_upto(s: Seq<int>, k: int)
    requires
        1 <= k <= s.len(),
    ensures
        0 <= best_upto(s, k) < k,
        forall|j: int| 0 <= j < k ==> #[trigger] s[j] <= s[best_upto(s, k)],
    decreases k,
{
    if k == 1 {
    } else {
        lemma_best_upto(s, k - 1);
    }
}

/// One step of the rule keeps the credit invariant.
pub proof fn lemma_step_ok(ws: Seq<int>, cur: Seq<int>)
    requires
        wts_ok(ws),
        1 <= ws.len(),
        credits_ok(ws, cur),
    ensures
        credits_ok(ws, step_credits(ws, cur)),
{
    let n = ws.len() as int;
    let s = seq_sum(ws);
    let b = bump(cur, ws);
    lemma_sum_bump(cur, ws);
    let sel = pick_index(b);
    lemma_best_upto(b, n);
    lemma_sum_lower(ws, 1);
    lemma_sum_upper(b, b[sel]);
    assert(1 <= b[sel]) by (nonlinear_arith)
        requires
            1 <= n,
            n <= s,
            2 * s <= n * b[sel],
    ;
    lemma_sum_update(b, sel, b[sel] - s);
    assert forall|i: int| 0 <= i < ws.len() implies 1 - s <= #[trigger] step_credits(ws, cur)[i] by {
        if i != sel {
            assert(step_credits(ws, cur)[i] == cur[i] + ws[i]);
        }
    }
}

/// How many entries of `s` equal `v`.
pub open spec fn count_of(s: Seq<int>, v: int) -> int
    decreases s.len(),
{
    if s.len() == 0 {
        0
    } else {
        count_of(s.drop_last(), v) + if s.last() == v {
            1int
        } else {
            0int
        }
    }
}

/// The first `m` choices of the rule for the weights `ws`.
pub open spec fn choices_upto(ws: Seq<int>, m: nat) -> Seq<int> {
    Seq::new(m, |t: int| choice_at(ws, t as nat))
}

/// The credit of candidate `k` before step `m` in closed form: its starting
/// credit plus `m` times its weight, minus the total weight for each time it
/// was chosen so far.  Also: the credit invariant holds at every step.
pub proof fn lemma_credit_count(ws: Seq<int>, m: nat, k: int)
    requires
        wts_ok(ws),
        1 <= ws.len(),
        0 <= k < ws.len(),
    ensures
        credits_ok(ws, credits_at(ws, m)),
        credits_at(ws, m)[k] == ws[k] + m * ws[k] - seq_sum(ws) * count_of(
            choices_upto(ws, m),
            k,
        ),
    decreases m,
{
    let s = seq_sum(ws);
    if m == 0 {
        assert(choices_upto(ws, 0nat) =~= Seq::<int>::empty());
        lemma_sum_lower(ws, 1);
        assert(0 * ws[k] == 0) by (nonlinear_arith);
        assert(s * 0 == 0) by (nonlinear_arith);
    } else {
        let p = (m - 1) as nat;
        lemma_credit_count(ws, p, k);
        let cur = credits_at(ws, p);
        let b = bump(cur, ws);
        let sel = pick_index(b);
        lemma_step_ok(ws, cur);
        lemma_best_upto(b, ws.len() as int);
        assert(credits_at(ws, m) == step_credits(ws, cur));
        assert(choices_upto(ws, m).drop_last() =~= choices_upto(ws, p));
        assert(choices_upto(ws, m).last() == choice_at(ws, p));
        let c_old = count_of(choices_upto(ws, p), k);
        let c_new = count_of(choices_upto(ws, m), k);
        assert(m * ws[k] == p * ws[k] + ws[k]) by (nonlinear_arith)
            requires
                m == p + 1,
        ;
        if sel == k {
            assert(c_new == c_old + 1);
            assert(credits_at(ws, m)[k] == cur[k] + ws[k] - s);
            assert(s * (c_old + 1) == s * c_old + s) by (nonlinear_arith);
        } else {
            assert(c_new == c_old);
            assert(credits_at(ws, m)[k] == cur[k] + ws[k]);
        }
    }
}

/// Proportionality of the schedule: over the first `m` choices the number
/// of times `c` that candidate `k` is chosen satisfies
/// `m*w + w - n*S <= S*c <= m*w + w + S - 1`, where `w` is its weight, `S`
/// the total weight and `n` the number of candidates — so `c` differs from
/// the exact share `m * w / S` by a bounded rounding term.
pub proof fn lemma_schedule_proportional(ws: Seq<int>, m: nat, k: int)
    requires
        wts_ok(ws),
        1 <= ws.len(),
        0 <= k < ws.len(),
    ensures
        m * ws[k] + ws[k] - ws.len() * seq_sum(ws) <= seq_sum(ws) * count_of(
            choices_upto(ws, m),
            k,
        ),
        seq_sum(ws) * count_of(choices_upto(ws, m), k) <= m * ws[k] + ws[k] + seq_sum(ws) - 1,
{
    lemma_credit_count(ws, m, k);
    lemma_credits_upper(ws, credits_at(ws, m), k);
}

/// How many of the steps `0 .. t` a strict round-robin over `n` slots
/// spends on slot `j`.
pub open spec fn round_robin_count(t: int, j: int, n: int) -> int {
    t / n + if j < t % n {
        1int
    } else {
        0int
    }
}

/// In a sequence whose first `r` entries all hold `lo` and whose remaining
/// entries all hold `hi > lo`, the first maximum among `s[0 .. k]` is at 0
/// until `k` passes `r`, and at `r` from then on.
pub proof fn lemma_pick_two_level(s: Seq<int>, r: int, lo: int, hi: int, k: int)
    requires
        1 <= k <= s.len(),
        0 <= r < s.len(),
        lo < hi,
        forall|j: int| 0 <= j < r ==> #[trigger] s[j] == lo,
        forall|j: int| r <= j < s.len() ==> #[trigger] s[j] == hi,
    ensures
        best_upto(s, k) == if k <= r {
            0int
        } else {
            r
        },
    decreases k,
{
    if k == 1 {
    } else {
        lemma_pick_two_level(s, r, lo, hi, k - 1);
    }
}

/// Equal weights give a strict round-robin: at every step the rule chooses
/// the candidate whose index is the step number modulo the number of
/// candidates, and the credits keep the closed form below.
pub proof fn lemma_equal_weights_state(ws: Seq<int>, t: nat)
    requires
        wts_ok(ws),
        1 <= ws.len(),
        forall|i: int| 0 <= i < ws.len() ==> #[trigger] ws[i] == ws[0],
    ensures
        credits_at(ws, t).len() == ws.len(),
        forall|j: int|
            0 <= j < ws.len() ==> #[trigger] credits_at(ws, t)[j] == ws[0] + t * ws[0] - (
            ws.len() * ws[0]) * round_robin_count(t as int, j, ws.len() as int),
        choice_at(ws, t) == (t as int) % (ws.len() as int),
    decreases t,
{
    let n = ws.len() as int;
    let w = ws[0];
    lemma_sum_lower(ws, w);
    lemma_sum_upper(ws, w);
    let s = seq_sum(ws);
    assert(s == n * w);
    if t == 0 {
        assert(0int / n == 0 && 0int % n == 0) by (nonlinear_arith)
            requires
                1 <= n,
        ;
        assert(forall|j: int|
            0 <= j < n ==> round_robin_count(0, j, n) == 0);
        assert(0 * w == 0) by (nonlinear_arith);
        assert(forall|j: int| 0 <= j < n ==> (n * w) * round_robin_count(0, j, n) == 0)
            by (nonlinear_arith);
    } else {
        let p = (t - 1) as nat;
        lemma_equal_weights_state(ws, p);
        let cur = credits_at(ws, p);
        let b = bump(cur, ws);
        let q0 = (p as int) / n;
        let r0 = (p as int) % n;
        vstd::arithmetic::div_mod::lemma_fundamental_div_mod(p as int, n);
        assert(0 <= r0 < n) by (nonlinear_arith)
            requires
                1 <= n,
                r0 == (p as int) % n,
        ;
        let hi = w + t * w - (n * w) * q0;
        let lo = hi - n * w;
        assert(forall|j: int|
            0 <= j < r0 ==> round_robin_count(p as int, j, n) == q0 + 1);
        assert(forall|j: int|
            r0 <= j < n ==> round_robin_count(p as int, j, n) == q0);
        assert((n * w) * (q0 + 1) == (n * w) * q0 + n * w) by (nonlinear_arith);
        assert(t * w == p * w + w) by (nonlinear_arith)
            requires
                t == p + 1,
        ;
        assert(forall|j: int| 0 <= j < r0 ==> #[trigger] b[j] == lo);
        assert(forall|j: int| r0 <= j < n ==> #[trigger] b[j] == hi);
        assert(lo < hi) by (nonlinear_arith)
            requires
                lo == hi - n * w,
                1 <= n,
                1 <= w,
        ;
        lemma_pick_two_level(b, r0, lo, hi, n);
        let sel = pick_index(b);
        assert(sel == r0);
        assert(credits_at(ws, t) == step_credits(ws, cur));
        // The division facts for step t itself.
        assert(n * q0 == q0 * n) by (nonlinear_arith);
        if r0 + 1 < n {
            assert((t as int) == q0 * n + (r0 + 1));
            vstd::arithmetic::div_mod::lemma_fundamental_div_mod_converse(
                t as int,
                n,
                q0,
                r0 + 1,
            );
            assert((t as int) / n == q0 && (t as int) % n == r0 + 1);
        } else {
            assert((t as int) == q0 * n + n);
            assert((q0 + 1) * n == q0 * n + n) by (nonlinear_arith);
            vstd::arithmetic::div_mod::lemma_fundamental_div_mod_converse(t as int, n, q0 + 1, 0);
            assert((t as int) / n == q0 + 1 && (t as int) % n == 0);
        }
        assert(forall|j: int|
            0 <= j < n && j != r0 ==> round_robin_count(t as int, j, n) == round_robin_count(
                p as int,
                j,
                n,
            ));
        assert(round_robin_count(t as int, r0, n) == round_robin_count(p as int, r0, n) + 1);
        assert(forall|j: int|
            0 <= j < n && j != r0 ==> #[trigger] credits_at(ws, t)[j] == b[j]);
        assert(credits_at(ws, t)[r0] == b[r0] - s);
        assert(forall|j: int|
            0 <= j < n ==> (n * w) * (round_robin_count(p as int, j, n) + 1) == (n * w)
                * round_robin_count(p as int, j, n) + n * w) by (nonlinear_arith);
    }
    // The choice at step t, from the two-level shape of the bumped credits.
    let curt = credits_at(ws, t);
    let bt = bump(curt, ws);
    let q1 = (t as int) / n;
    let r1 = (t as int) % n;
    let hi1 = w + (t + 1) * w - (n * w) * q1;
    let lo1 = hi1 - n * w;
    assert(forall|j: int| 0 <= j < r1 ==> round_robin_count(t as int, j, n) == q1 + 1);
    assert(forall|j: int| r1 <= j < n ==> round_robin_count(t as int, j, n) == q1);
    assert((n * w) * (q1 + 1) == (n * w) * q1 + n * w) by (nonlinear_arith);
    assert((t + 1) * w == t * w + w) by (nonlinear_arith);
    assert(forall|j: int| 0 <= j < r1 ==> #[trigger] bt[j] == lo1);
    assert(forall|j: int| r1 <= j < n ==> #[trigger] bt[j] == hi1);
    assert(lo1 < hi1) by (nonlinear_arith)
        requires
            lo1 == hi1 - n * w,
            1 <= n,
            1 <= w,
    ;
    assert(0 <= r1 < n) by (nonlinear_arith)
        requires
            1 <= n,
            r1 == (t as int) % n,
    ;
    lemma_pick_two_level(bt, r1, lo1, hi1, n);
}

/// Under the credit invariant every credit is capped by `n` times the total
/// weight.
pub proof fn lemma_credits_upper(ws: Seq<int>, cur: Seq<int>, k: int)
    requires
        wts_ok(ws),
        credits_ok(ws, cur),
        0 <= k < cur.len(),
    ensures
        cur[k] <= ws.len() * seq_sum(ws),
{
    let n = ws.len() as int;
    let s = seq_sum(ws);
    lemma_sum_lower(ws, 1);
    lemma_elem_upper(cur, k, 1 - s);
    assert(s - (n - 1) * (1 - s) <= n * s) by (nonlinear_arith)
        requires
            1 <= n,
            n <= s,
    ;
}

} // verus!
