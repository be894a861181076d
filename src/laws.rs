use vstd::prelude::*;
use crate::decimal::{lemma_pow10_add, lemma_pow10_positive, pow10, round_half_up_3, same_value, units_at};
use crate::portfolio::{
    derived, field_of, rebalance_error, rebalanced, rounded, sum_field,
    AssetField, AssetList, AssetView,
};

verus! {

/// Two lists that agree, asset by asset, on one figure have the same sum of it.
pub proof fn lemma_sum_field_agrees(s: Seq<AssetView>, t: Seq<AssetView>, f: AssetField)
    requires
        s.len() == t.len(),
        forall|i: int| 0 <= i < s.len() ==> field_of(s[i], f) == field_of(t[i], f),
    ensures
        sum_field(s, f) == sum_field(t, f),
    decreases s.len(),
{
    if s.len() > 0 {
        lemma_sum_field_agrees(s.drop_last(), t.drop_last(), f);
        assert(field_of(s.last(), f) == field_of(t.last(), f));
    }
}

/// Rebalancing keeps the names, current amounts and target percentages.
pub proof fn lemma_rebalanced_keeps_inputs(s: Seq<AssetView>)
    ensures
        rebalanced(s).len() == s.len(),
        forall|i: int|
            0 <= i < s.len() ==> {
                &&& (#[trigger] rebalanced(s)[i]).name == s[i].name
                &&& rebalanced(s)[i].current_amount == s[i].current_amount
                &&& rebalanced(s)[i].target_percentage == s[i].target_percentage
            },
        sum_field(rebalanced(s), AssetField::CurrentAmount) == sum_field(s, AssetField::CurrentAmount),
        sum_field(rebalanced(s), AssetField::TargetPercentage) == sum_field(
            s,
            AssetField::TargetPercentage,
        ),
{
    lemma_sum_field_agrees(rebalanced(s), s, AssetField::CurrentAmount);
    lemma_sum_field_agrees(rebalanced(s), s, AssetField::TargetPercentage);
}

/// Rebalancing is idempotent: on a list that rebalances successfully, a
/// second rebalance succeeds too and leaves every figure, derived ones
/// included, exactly as the first one set it.
pub proof fn lemma_rebalance_idempotent(list: &AssetList)
    requires
        list.wf(),
        rebalance_error(list@) is None,
    ensures
        rebalance_error(rebalanced(list@)) is None,
        rebalanced(rebalanced(list@)) == rebalanced(list@),
{
    let s = list@;
    let r = rebalanced(s);
    lemma_rebalanced_keeps_inputs(s);
    let total = sum_field(s, AssetField::CurrentAmount);
    assert forall|i: int| 0 <= i < r.len() implies #[trigger] rebalanced(r)[i] == r[i] by {
        assert(rebalanced(r)[i] == derived(r[i], total));
    }
    assert(rebalanced(r) =~= r);
}

/// A decimal worth exactly 100 still is once rounded to three places.
pub proof fn lemma_hundred_rounds_to_hundred(d: (int, int))
    requires
        same_value(d, (100, 0)),
    ensures
        same_value(rounded(d), (100, 0)),
{
    let u = d.0;
    let s = d.1;
    assert(pow10(0) == 1);
    assert(pow10(1) == 10);
    assert(pow10(2) == 100);
    assert(pow10(3) == 1000);
    if s <= 0 {
        assert(u * pow10((0 - s) as nat) == 100);
        lemma_pow10_add((0 - s) as nat, 3);
        assert(round_half_up_3(d) == u * pow10((3 - s) as nat));
        assert(u * pow10((3 - s) as nat) == 100000) by (nonlinear_arith)
            requires
                u * pow10((0 - s) as nat) == 100,
                pow10((3 - s) as nat) == pow10((0 - s) as nat) * 1000,
        ;
    } else if s <= 3 {
        assert(u == 100 * pow10(s as nat));
        lemma_pow10_add(s as nat, (3 - s) as nat);
        assert(u * pow10((3 - s) as nat) == 100000) by (nonlinear_arith)
            requires
                u == 100 * pow10(s as nat),
                pow10(s as nat) * pow10((3 - s) as nat) == 1000,
        ;
    } else {
        let q = pow10((s - 3) as nat);
        lemma_pow10_positive((s - 3) as nat);
        lemma_pow10_add(3, (s - 3) as nat);
        assert(u == 100 * pow10(s as nat));
        assert(u == 100000 * q) by (nonlinear_arith)
            requires
                u == 100 * pow10(s as nat),
                pow10(s as nat) == 1000 * q,
        ;
        assert((u + q / 2) / q == 100000) by (nonlinear_arith)
            requires
                u == 100000 * q,
                q > 0,
        ;
    }
    assert(units_at(rounded(d), 3) == 100000);
    assert(units_at((100, 0), 3) == 100000);
}

} // verus!
