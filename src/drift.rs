use vstd::prelude::*;
use crate::decimal::{
    abs, lemma_pow10_add, lemma_pow10_positive, lemma_units_rescale, max_scale, pow10,
    quotient_close, round_half_up_3, units_at, DIVISION_DIGITS_LIMIT, SCALE_LIMIT,
};
use crate::decimal::{quotient_exact, same_value};
use vstd::arithmetic::div_mod::lemma_fundamental_div_mod_converse;
use crate::portfolio::{exact_units, fine_enough, rounded, AssetField, AssetView};

verus! {

/// A scale at least that of every derived current percentage: amounts and the
/// total stay within `SCALE_LIMIT`, and a quotient adds less than
/// `DIVISION_DIGITS_LIMIT`.
pub open spec fn fine_scale() -> int {
    2 * SCALE_LIMIT + DIVISION_DIGITS_LIMIT
}

/// The current percentage `cp` of an asset with current amount `a`, in a
/// portfolio whose total is `(u, st)`, counted in units of `10^(-m)`: times
/// the total it is `100 * a` to within one unit of its last place, and it is
/// exact or that unit is below a `10^99`th of it.
pub open spec fn share_close(cp: (int, int), a: (int, int), m: int, st: int, u: int) -> bool {
    let x = units_at(cp, m);
    let e = pow10((m - cp.1) as nat);
    let amount = units_at(a, m + st);
    &&& cp.1 <= m
    &&& x >= 0
    &&& abs(x * u - 100 * amount) < u * e
    &&& (x * u == 100 * amount || e * pow10(99) <= x)
}

/// The units of the last place of the inexact current percentages.
pub open spec fn drift_bound(r: Seq<AssetView>, s: Seq<AssetView>, m: int, st: int, u: int) -> int
    decreases r.len(),
{
    if r.len() == 0 || s.len() == 0 {
        0
    } else {
        let cp = r.last().current_percentage;
        let x = units_at(cp, m);
        let e = if x * u == 100 * units_at(s.last().current_amount, m + st) {
            0
        } else {
            pow10((m - cp.1) as nat)
        };
        drift_bound(r.drop_last(), s.drop_last(), m, st, u) + e
    }
}

pub proof fn lemma_pow10_monotone(a: nat, b: nat)
    requires
        a <= b,
    ensures
        pow10(a) <= pow10(b),
{
    lemma_pow10_add(a, (b - a) as nat);
    lemma_pow10_positive(a);
    lemma_pow10_positive((b - a) as nat);
    assert(pow10(a) * pow10((b - a) as nat) >= pow10(a)) by (nonlinear_arith)
        requires
            pow10(a) > 0,
            pow10((b - a) as nat) >= 1,
    ;
}

/// The current percentage that a quotient gives is close to its share.
pub proof fn lemma_share_close(
    a: (int, int),
    share: (int, int),
    total: (int, int),
    cp: (int, int),
    m: int,
)
    requires
        a.0 > 0,
        total.0 > 0,
        share.1 <= m + total.1,
        a.1 <= m + total.1,
        cp.1 <= m,
        units_at(share, max_scale(share.1, a.1)) == a.0 * 100 * pow10(
            (max_scale(share.1, a.1) - a.1) as nat,
        ),
        quotient_close(share, total, cp),
    ensures
        share_close(cp, a, m, total.1, total.0),
{
    let u = total.0;
    let st = total.1;
    let k = max_scale(share.1, cp.1 + st);
    let big = m + st;
    let p = pow10((big - k) as nat);
    lemma_pow10_positive((big - k) as nat);
    let unit = pow10((k - cp.1 - st) as nat);
    let e = pow10((m - cp.1) as nat);
    lemma_pow10_add((k - cp.1 - st) as nat, (big - k) as nat);
    assert(unit * p == e);
    let x = units_at(cp, m);
    let times = cp.0 * u * unit;
    assert(times * p == x * u) by (nonlinear_arith)
        requires
            times == cp.0 * u * unit,
            unit * p == e,
            x == cp.0 * e,
    ;
    let exact = share.0 * pow10((k - share.1) as nat);
    lemma_units_rescale(share, k, big);
    assert(exact * p == units_at(share, big));
    let ks = max_scale(share.1, a.1);
    lemma_units_rescale(share, ks, big);
    lemma_pow10_add((ks - a.1) as nat, (big - ks) as nat);
    let amount = units_at(a, big);
    assert(units_at(share, big) == 100 * amount) by (nonlinear_arith)
        requires
            units_at(share, big) == units_at(share, ks) * pow10((big - ks) as nat),
            units_at(share, ks) == a.0 * 100 * pow10((ks - a.1) as nat),
            pow10((big - a.1) as nat) == pow10((ks - a.1) as nat) * pow10((big - ks) as nat),
            amount == a.0 * pow10((big - a.1) as nat),
    ;
    assert(abs(x * u - 100 * amount) < u * e) by (nonlinear_arith)
        requires
            abs(times - exact) < abs(u) * unit,
            u > 0,
            p > 0,
            times * p == x * u,
            exact * p == 100 * amount,
            unit * p == e,
    ;
    lemma_pow10_positive((big - a.1) as nat);
    assert(amount > 0) by (nonlinear_arith)
        requires
            amount == a.0 * pow10((big - a.1) as nat),
            a.0 > 0,
            pow10((big - a.1) as nat) > 0,
    ;
    lemma_pow10_positive((m - cp.1) as nat);
    if x * u == 100 * amount {
        assert(x >= 0) by (nonlinear_arith)
            requires
                x * u == 100 * amount,
                amount > 0,
                u > 0,
        ;
    } else {
        assert(times != exact) by (nonlinear_arith)
            requires
                times * p == x * u,
                exact * p == 100 * amount,
                x * u != 100 * amount,
        ;
        assert(abs(cp.0) >= pow10(99));
        lemma_pow10_monotone(0, 99);
        assert(abs(x) >= e * pow10(99)) by (nonlinear_arith)
            requires
                x == cp.0 * e,
                abs(cp.0) >= pow10(99),
                e > 0,
        ;
        assert(x >= 0) by (nonlinear_arith)
            requires
                abs(x * u - 100 * amount) < u * e,
                abs(x) >= e * pow10(99),
                pow10(99) >= 1,
                amount > 0,
                u > 0,
                e > 0,
        ;
    }
}

/// Summed over the assets, the current percentages times the total are
/// `100` times the sum of the amounts, to within the drift bound; the drift
/// bound is below a `10^99`th of the summed percentages.
pub proof fn lemma_drift_sum(r: Seq<AssetView>, s: Seq<AssetView>, m: int, st: int, u: int)
    requires
        r.len() == s.len(),
        u > 0,
        forall|i: int|
            0 <= i < r.len() ==> share_close(
                #[trigger] r[i].current_percentage,
                s[i].current_amount,
                m,
                st,
                u,
            ),
    ensures
        abs(exact_units(r, AssetField::CurrentPercentage, m) * u - 100 * exact_units(
            s,
            AssetField::CurrentAmount,
            m + st,
        )) <= u * drift_bound(r, s, m, st, u),
        drift_bound(r, s, m, st, u) * pow10(99) <= exact_units(r, AssetField::CurrentPercentage, m),
        drift_bound(r, s, m, st, u) >= 0,
    decreases r.len(),
{
    if r.len() > 0 {
        let r0 = r.drop_last();
        let s0 = s.drop_last();
        assert forall|i: int| 0 <= i < r0.len() implies share_close(
            #[trigger] r0[i].current_percentage,
            s0[i].current_amount,
            m,
            st,
            u,
        ) by {
            assert(r0[i] == r[i]);
            assert(s0[i] == s[i]);
        }
        lemma_drift_sum(r0, s0, m, st, u);
        let last = r.len() - 1;
        assert(share_close(r[last].current_percentage, s[last].current_amount, m, st, u));
        let cp = r.last().current_percentage;
        let x = units_at(cp, m);
        let amount = units_at(s.last().current_amount, m + st);
        let e = if x * u == 100 * amount { 0 } else { pow10((m - cp.1) as nat) };
        let sx = exact_units(r0, AssetField::CurrentPercentage, m);
        let sa = exact_units(s0, AssetField::CurrentAmount, m + st);
        let se = drift_bound(r0, s0, m, st, u);
        lemma_pow10_positive((m - cp.1) as nat);
        assert(abs(x * u - 100 * amount) <= u * e);
        assert(e * pow10(99) <= x);
        assert(abs((sx + x) * u - 100 * (sa + amount)) <= u * (se + e)) by (nonlinear_arith)
            requires
                abs(sx * u - 100 * sa) <= u * se,
                abs(x * u - 100 * amount) <= u * e,
        ;
        assert((se + e) * pow10(99) <= sx + x) by (nonlinear_arith)
            requires
                se * pow10(99) <= sx,
                e * pow10(99) <= x,
        ;
    }
}

/// A decimal that differs from 100 by at most `slack` units of `10^(-m)`,
/// where `slack` is at most a millionth of a whole, rounds to 100 at three
/// places.
pub proof fn lemma_near_hundred_rounds(d: (int, int), m: int, slack: int)
    requires
        d.1 <= m,
        m >= 0,
        slack >= 0,
        abs(units_at(d, m) - 100 * pow10(m as nat)) <= slack,
        slack * 1000000 <= pow10(m as nat),
    ensures
        round_half_up_3(d) == 100000,
{
    let u = d.0;
    let s = d.1;
    assert(pow10(0) == 1);
    assert(pow10(1) == 10);
    assert(pow10(2) == 100);
    assert(pow10(3) == 1000);
    lemma_pow10_positive((m - s) as nat);
    if s <= 3 {
        let r = u * pow10((3 - s) as nat);
        if m >= 3 {
            let t = pow10((m - 3) as nat);
            lemma_pow10_positive((m - 3) as nat);
            lemma_pow10_add((3 - s) as nat, (m - 3) as nat);
            lemma_pow10_add(3, (m - 3) as nat);
            assert(units_at(d, m) == r * t) by (nonlinear_arith)
                requires
                    units_at(d, m) == u * pow10((m - s) as nat),
                    pow10((m - s) as nat) == pow10((3 - s) as nat) * t,
                    r == u * pow10((3 - s) as nat),
            ;
            assert(r == 100000) by (nonlinear_arith)
                requires
                    abs(r * t - 100 * (1000 * t)) <= slack,
                    slack * 1000000 <= 1000 * t,
                    t > 0,
                    slack >= 0,
            ;
        } else {
            lemma_pow10_monotone(m as nat, 3);
            lemma_pow10_add((m - s) as nat, (3 - m) as nat);
            lemma_pow10_add(m as nat, (3 - m) as nat);
            assert(slack == 0) by (nonlinear_arith)
                requires
                    slack * 1000000 <= pow10(m as nat),
                    pow10(m as nat) <= 1000,
                    slack >= 0,
            ;
            assert(r == 100000) by (nonlinear_arith)
                requires
                    u * pow10((m - s) as nat) == 100 * pow10(m as nat),
                    pow10((3 - s) as nat) == pow10((m - s) as nat) * pow10((3 - m) as nat),
                    pow10(3) == pow10(m as nat) * pow10((3 - m) as nat),
                    pow10(3) == 1000,
                    r == u * pow10((3 - s) as nat),
            ;
        }
    } else {
        let q = pow10((s - 3) as nat);
        let t = pow10((m - s) as nat);
        lemma_pow10_positive((s - 3) as nat);
        lemma_pow10_add(3, (s - 3) as nat);
        lemma_pow10_add(s as nat, (m - s) as nat);
        lemma_pow10_monotone(1, (s - 3) as nat);
        assert(q % 2 == 0) by {
            assert(q == 10 * pow10((s - 4) as nat));
        }
        assert(abs(u - 100000 * q) * 2 < q) by (nonlinear_arith)
            requires
                abs(u * t - 100 * (1000 * q * t)) <= slack,
                slack * 1000000 <= 1000 * q * t,
                t > 0,
                q >= 10,
                slack >= 0,
        ;
        assert((u + q / 2) / q == 100000) by (nonlinear_arith)
            requires
                abs(u - 100000 * q) * 2 < q,
                q % 2 == 0,
                q > 0,
        ;
    }
}

/// The current percentages, each close to its share of a positive total,
/// sum to a value that rounds to 100 at three places.
pub proof fn lemma_percentages_round_to_hundred(
    r: Seq<AssetView>,
    s: Seq<AssetView>,
    total: (int, int),
    d: (int, int),
)
    requires
        r.len() == s.len(),
        total.0 > 0,
        -SCALE_LIMIT <= total.1 <= SCALE_LIMIT,
        forall|i: int| 0 <= i < s.len() ==> #[trigger] s[i].current_amount.1 <= SCALE_LIMIT,
        forall|i: int|
            0 <= i < r.len() ==> share_close(
                #[trigger] r[i].current_percentage,
                s[i].current_amount,
                fine_scale(),
                total.1,
                total.0,
            ),
        units_at(total, fine_scale() + total.1) == exact_units(
            s,
            AssetField::CurrentAmount,
            fine_scale() + total.1,
        ),
        forall|k: int|
            #[trigger] fine_enough(r, AssetField::CurrentPercentage, k) ==> d.1 <= k && units_at(d, k)
                == exact_units(r, AssetField::CurrentPercentage, k),
    ensures
        same_value(rounded(d), (100, 0)),
{
    let m = fine_scale();
    let u = total.0;
    let st = total.1;
    assert forall|i: int| 0 <= i < r.len() implies #[trigger] crate::portfolio::field_of(
        r[i],
        AssetField::CurrentPercentage,
    ).1 <= m by {
        assert(share_close(r[i].current_percentage, s[i].current_amount, m, st, u));
    }
    assert(fine_enough(r, AssetField::CurrentPercentage, m));
    lemma_drift_sum(r, s, m, st, u);
    let sx = exact_units(r, AssetField::CurrentPercentage, m);
    let se = drift_bound(r, s, m, st, u);
    let pm = pow10(m as nat);
    assert(units_at(total, m + st) == u * pm);
    lemma_pow10_add(9, 90);
    lemma_pow10_positive(90);
    assert(pow10(9) == 1000000000) by {
        assert(pow10(0) == 1);
        assert(pow10(1) == 10);
        assert(pow10(2) == 100);
        assert(pow10(3) == 1000);
        assert(pow10(4) == 10000);
        assert(pow10(5) == 100000);
        assert(pow10(6) == 1000000);
        assert(pow10(7) == 10000000);
        assert(pow10(8) == 100000000);
    }
    assert(pow10(99) >= 1000000000) by (nonlinear_arith)
        requires
            pow10(99) == pow10(9) * pow10(90),
            pow10(9) == 1000000000,
            pow10(90) >= 1,
    ;
    assert(abs(sx - 100 * pm) <= se) by (nonlinear_arith)
        requires
            abs(sx * u - 100 * (u * pm)) <= u * se,
            u > 0,
    ;
    assert(se * 1000000 <= pm) by (nonlinear_arith)
        requires
            abs(sx - 100 * pm) <= se,
            se * pow10(99) <= sx,
            pow10(99) >= 1000000000,
            se >= 0,
    ;
    lemma_near_hundred_rounds(d, m, se);
    assert(units_at(rounded(d), 3) == 100000);
    assert(units_at((100, 0), 3) == 100000) by {
        assert(pow10(3) == 1000) by {
            assert(pow10(0) == 1);
            assert(pow10(1) == 10);
            assert(pow10(2) == 100);
        }
    }
}

/// A target amount that is exactly a hundredth of `total * tp`, counted in
/// units of `10^(-k)`.
pub proof fn lemma_target_exact(
    total: (int, int),
    tp: (int, int),
    goal: (int, int),
    ta: (int, int),
    k: int,
)
    requires
        units_at(goal, max_scale(goal.1, total.1 + tp.1)) == total.0 * tp.0 * pow10(
            (max_scale(goal.1, total.1 + tp.1) - total.1 - tp.1) as nat,
        ),
        quotient_exact(goal, (100, 0), ta),
        ta.1 <= k,
        goal.1 <= k,
        total.1 + tp.1 <= k,
    ensures
        units_at(ta, k) * 100 == total.0 * units_at(tp, k - total.1),
{
    let kq = max_scale(goal.1, ta.1 + 0);
    let kg = max_scale(goal.1, total.1 + tp.1);
    lemma_units_rescale(goal, kq, k);
    lemma_units_rescale(goal, kg, k);
    lemma_pow10_add((kq - ta.1) as nat, (k - kq) as nat);
    lemma_pow10_add((kg - total.1 - tp.1) as nat, (k - kg) as nat);
    let p = pow10((k - kq) as nat);
    assert(units_at(ta, k) * 100 == units_at(goal, k)) by (nonlinear_arith)
        requires
            ta.0 * 100 * pow10((kq - ta.1 - 0) as nat) == goal.0 * pow10((kq - goal.1) as nat),
            units_at(goal, k) == units_at(goal, kq) * p,
            units_at(goal, kq) == goal.0 * pow10((kq - goal.1) as nat),
            pow10((k - ta.1) as nat) == pow10((kq - ta.1) as nat) * p,
            units_at(ta, k) == ta.0 * pow10((k - ta.1) as nat),
    ;
    assert(units_at(goal, k) == total.0 * units_at(tp, k - total.1)) by (nonlinear_arith)
        requires
            units_at(goal, k) == units_at(goal, kg) * pow10((k - kg) as nat),
            units_at(goal, kg) == total.0 * tp.0 * pow10((kg - total.1 - tp.1) as nat),
            pow10((k - total.1 - tp.1) as nat) == pow10((kg - total.1 - tp.1) as nat) * pow10(
                (k - kg) as nat,
            ),
            units_at(tp, k - total.1) == tp.0 * pow10((k - total.1 - tp.1) as nat),
    ;
}

/// Summed over the assets, target amounts that are each exactly a hundredth
/// of `total * tp` are a hundredth of `total` times the summed percentages.
pub proof fn lemma_target_sum(r: Seq<AssetView>, s: Seq<AssetView>, total: (int, int), k: int)
    requires
        r.len() == s.len(),
        forall|i: int|
            0 <= i < r.len() ==> units_at(#[trigger] r[i].target_amount, k) * 100 == total.0 * units_at(
                s[i].target_percentage,
                k - total.1,
            ),
    ensures
        exact_units(r, AssetField::TargetAmount, k) * 100 == total.0 * exact_units(
            s,
            AssetField::TargetPercentage,
            k - total.1,
        ),
    decreases r.len(),
{
    if r.len() > 0 {
        let r0 = r.drop_last();
        let s0 = s.drop_last();
        assert forall|i: int| 0 <= i < r0.len() implies units_at(#[trigger] r0[i].target_amount, k) * 100
            == total.0 * units_at(s0[i].target_percentage, k - total.1) by {
            assert(r0[i] == r[i]);
            assert(s0[i] == s[i]);
        }
        lemma_target_sum(r0, s0, total, k);
        let last = r.len() - 1;
        assert(units_at(r[last].target_amount, k) * 100 == total.0 * units_at(
            s[last].target_percentage,
            k - total.1,
        ));
        let a = exact_units(r0, AssetField::TargetAmount, k);
        let b = exact_units(s0, AssetField::TargetPercentage, k - total.1);
        let x = units_at(r.last().target_amount, k);
        let y = units_at(s.last().target_percentage, k - total.1);
        assert((a + x) * 100 == total.0 * (b + y)) by (nonlinear_arith)
            requires
                a * 100 == total.0 * b,
                x * 100 == total.0 * y,
        ;
    }
}

/// Lists that agree on one figure have the same exact sum of it.
pub proof fn lemma_exact_units_agree(s: Seq<AssetView>, t: Seq<AssetView>, f: AssetField, k: int)
    requires
        s.len() == t.len(),
        forall|i: int| 0 <= i < s.len() ==> crate::portfolio::field_of(s[i], f)
            == crate::portfolio::field_of(t[i], f),
    ensures
        exact_units(s, f, k) == exact_units(t, f, k),
    decreases s.len(),
{
    if s.len() > 0 {
        lemma_exact_units_agree(s.drop_last(), t.drop_last(), f, k);
        assert(crate::portfolio::field_of(s.last(), f) == crate::portfolio::field_of(t.last(), f));
    }
}

/// Equal counts of units of `10^(-k)`, for `k` at least both scales, are
/// the same value.
pub proof fn lemma_same_units(x: (int, int), y: (int, int), k: int)
    requires
        x.1 <= k,
        y.1 <= k,
        units_at(x, k) == units_at(y, k),
    ensures
        same_value(x, y),
{
    let m = max_scale(x.1, y.1);
    lemma_units_rescale(x, m, k);
    lemma_units_rescale(y, m, k);
    lemma_pow10_positive((k - m) as nat);
    assert(units_at(x, m) == units_at(y, m)) by (nonlinear_arith)
        requires
            units_at(x, m) * pow10((k - m) as nat) == units_at(y, m) * pow10((k - m) as nat),
            pow10((k - m) as nat) > 0,
    ;
}

/// `(a * t) / (b * t) == a / b` for positive `b` and `t`.
pub proof fn lemma_div_cancel(a: int, b: int, t: int)
    requires
        b > 0,
        t > 0,
    ensures
        (a * t) / (b * t) == a / b,
{
    let q = a / b;
    let m = a % b;
    assert(a == q * b + m && 0 <= m < b) by {
        vstd::arithmetic::div_mod::lemma_fundamental_div_mod(a, b);
    }
    assert(a * t == q * (b * t) + m * t && 0 <= m * t < b * t) by (nonlinear_arith)
        requires
            a == q * b + m,
            0 <= m < b,
            t > 0,
    ;
    lemma_fundamental_div_mod_converse(a * t, b * t, q, m * t);
}

/// Rounding to three places depends on the value alone, not on its scale.
pub proof fn lemma_round_same_value(x: (int, int), y: (int, int))
    requires
        same_value(x, y),
        x.1 <= y.1,
    ensures
        round_half_up_3(x) == round_half_up_3(y),
{
    let t = pow10((y.1 - x.1) as nat);
    lemma_pow10_positive((y.1 - x.1) as nat);
    assert(pow10(0) == 1);
    assert(y.0 == x.0 * t);
    if y.1 <= 3 {
        lemma_pow10_add((y.1 - x.1) as nat, (3 - y.1) as nat);
        assert(x.0 * pow10((3 - x.1) as nat) == y.0 * pow10((3 - y.1) as nat)) by (nonlinear_arith)
            requires
                y.0 == x.0 * t,
                pow10((3 - x.1) as nat) == t * pow10((3 - y.1) as nat),
        ;
    } else if x.1 <= 3 {
        let q = pow10((y.1 - 3) as nat);
        let r = x.0 * pow10((3 - x.1) as nat);
        lemma_pow10_positive((y.1 - 3) as nat);
        lemma_pow10_add((3 - x.1) as nat, (y.1 - 3) as nat);
        lemma_pow10_monotone(1, (y.1 - 3) as nat);
        assert(q % 2 == 0) by {
            assert(q == 10 * pow10((y.1 - 4) as nat));
        }
        assert(y.0 == r * q) by (nonlinear_arith)
            requires
                y.0 == x.0 * t,
                t == pow10((3 - x.1) as nat) * q,
                r == x.0 * pow10((3 - x.1) as nat),
        ;
        if y.0 >= 0 {
            lemma_fundamental_div_mod_converse(y.0 + q / 2, q, r, q / 2);
        } else {
            assert(-y.0 + q / 2 == (-r) * q + q / 2) by (nonlinear_arith)
                requires
                    y.0 == r * q,
            ;
            lemma_fundamental_div_mod_converse(-y.0 + q / 2, q, -r, q / 2);
        }
    } else {
        let qx = pow10((x.1 - 3) as nat);
        let qy = pow10((y.1 - 3) as nat);
        lemma_pow10_positive((x.1 - 3) as nat);
        lemma_pow10_add((x.1 - 3) as nat, (y.1 - x.1) as nat);
        lemma_pow10_monotone(1, (x.1 - 3) as nat);
        assert(qx % 2 == 0) by {
            assert(qx == 10 * pow10((x.1 - 4) as nat));
        }
        assert(qy == qx * t);
        assert(qy / 2 == (qx / 2) * t) by (nonlinear_arith)
            requires
                qy == qx * t,
                qx % 2 == 0,
        ;
        if x.0 >= 0 {
            assert(y.0 + qy / 2 == (x.0 + qx / 2) * t) by (nonlinear_arith)
                requires
                    y.0 == x.0 * t,
                    qy / 2 == (qx / 2) * t,
            ;
            lemma_div_cancel(x.0 + qx / 2, qx, t);
        } else {
            assert(-y.0 + qy / 2 == (-x.0 + qx / 2) * t) by (nonlinear_arith)
                requires
                    y.0 == x.0 * t,
                    qy / 2 == (qx / 2) * t,
            ;
            assert(y.0 < 0) by (nonlinear_arith)
                requires
                    y.0 == x.0 * t,
                    x.0 < 0,
                    t > 0,
            ;
            lemma_div_cancel(-x.0 + qx / 2, qx, t);
        }
    }
}

} // verus!
