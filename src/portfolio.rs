use vstd::prelude::*;
use vstd::string::*;
use crate::decimal::{
    compare, from_i64, lemma_positive_unscaled, lemma_sum_positive, lemma_units_rescale, less_value,
    max_scale, pow10, product_of, product_repr, quotient_of, quotient_repr, round_3,
    round_half_up_3, same_value, sum_of, sum_repr, text_of, to_text, units_at, Decimal,
    QUOTIENT_SCALE_LIMIT, SCALE_LIMIT, abs,
};
use crate::drift::{
    fine_scale, lemma_exact_units_agree, lemma_percentages_round_to_hundred, lemma_round_same_value,
    lemma_same_units, lemma_share_close, lemma_target_exact, lemma_target_sum, share_close,
};
use crate::laws::{lemma_hundred_rounds_to_hundred, lemma_rebalanced_keeps_inputs, lemma_sum_field_agrees};

verus! {

/// What an asset holds, over plain values.
pub struct AssetView {
    pub name: Seq<char>,
    pub current_amount: (int, int),
    pub target_percentage: (int, int),
    pub current_percentage: (int, int),
    pub target_amount: (int, int),
}

/// A positive current amount and a target percentage in (0, 100], at scales
/// that stay within `SCALE_LIMIT`.
pub open spec fn valid_figures(current_amount: (int, int), target_percentage: (int, int)) -> bool {
    &&& -SCALE_LIMIT <= current_amount.1 <= SCALE_LIMIT
    &&& -SCALE_LIMIT <= target_percentage.1 <= SCALE_LIMIT
    &&& less_value((0, 0), current_amount)
    &&& less_value((0, 0), target_percentage)
    &&& !less_value((100, 0), target_percentage)
}

/// The error that `Asset::new` gives for the figures, if any.
pub open spec fn figures_error(current_amount: (int, int), target_percentage: (int, int)) -> Option<Seq<char>> {
    if less_value(current_amount, (0, 0)) {
        Some("Asset current amount is negative"@)
    } else if same_value(current_amount, (0, 0)) {
        Some("Asset current amount is zero"@)
    } else if less_value(target_percentage, (0, 0)) {
        Some("Asset target percentage is negative"@)
    } else if same_value(target_percentage, (0, 0)) {
        Some("Asset target percentage is zero"@)
    } else if less_value((100, 0), target_percentage) {
        Some("Asset target percentage exceeds 100"@)
    } else {
        None
    }
}

/// One holding of a portfolio.
pub struct Asset {
    name: String,
    current_amount: Decimal,
    target_percentage: Decimal,
    current_percentage: Decimal,
    target_amount: Decimal,
}

impl View for Asset {
    type V = AssetView;

    closed spec fn view(&self) -> AssetView {
        AssetView {
            name: self.name@,
            current_amount: self.current_amount@,
            target_percentage: self.target_percentage@,
            current_percentage: self.current_percentage@,
            target_amount: self.target_amount@,
        }
    }
}

impl Asset {
    /// The asset's figures meet the rules of construction.
    pub closed spec fn wf(&self) -> bool {
        &&& valid_figures(self.current_amount@, self.target_percentage@)
        &&& self.current_amount.small_scale()
        &&& self.target_percentage.small_scale()
        &&& -2 * SCALE_LIMIT <= self.current_percentage@.1 <= QUOTIENT_SCALE_LIMIT
        &&& -2 * SCALE_LIMIT <= self.target_amount@.1 <= QUOTIENT_SCALE_LIMIT
    }

    /// An asset with no derived figures yet, or the first rule that the
    /// figures break.
    pub fn new(name: String, current_amount: Decimal, target_percentage: Decimal) -> (r: Result<
        Asset,
        &'static str,
    >)
        requires
            current_amount.small_scale(),
            target_percentage.small_scale(),
        ensures
            match r {
                Ok(a) => {
                    &&& figures_error(current_amount@, target_percentage@) is None
                    &&& a.wf()
                    &&& a@ == (AssetView {
                        name: name@,
                        current_amount: current_amount@,
                        target_percentage: target_percentage@,
                        current_percentage: (0, 0),
                        target_amount: (0, 0),
                    })
                },
                Err(e) => figures_error(current_amount@, target_percentage@) == Some(e@),
            },
    {
        let zero = Decimal::zero();
        let hundred = Decimal::hundred();
        let c = compare(&current_amount, &zero);
        if c == -1 {
            proof { reveal_strlit("Asset current amount is negative"); }
            return Err("Asset current amount is negative");
        }
        if c == 0 {
            proof { reveal_strlit("Asset current amount is zero"); }
            return Err("Asset current amount is zero");
        }
        let t = compare(&target_percentage, &zero);
        if t == -1 {
            proof { reveal_strlit("Asset target percentage is negative"); }
            return Err("Asset target percentage is negative");
        }
        if t == 0 {
            proof { reveal_strlit("Asset target percentage is zero"); }
            return Err("Asset target percentage is zero");
        }
        if compare(&target_percentage, &hundred) == 1 {
            proof { reveal_strlit("Asset target percentage exceeds 100"); }
            return Err("Asset target percentage exceeds 100");
        }
        Ok(Asset {
            name,
            current_amount,
            target_percentage,
            current_percentage: Decimal::zero(),
            target_amount: Decimal::zero(),
        })
    }
}

/// One of the four figures of an asset.
#[derive(Clone, Copy, Debug, PartialEq, Eq, Structural)]
pub enum AssetField {
    CurrentAmount,
    TargetPercentage,
    CurrentPercentage,
    TargetAmount,
}

pub open spec fn field_of(a: AssetView, f: AssetField) -> (int, int) {
    match f {
        AssetField::CurrentAmount => a.current_amount,
        AssetField::TargetPercentage => a.target_percentage,
        AssetField::CurrentPercentage => a.current_percentage,
        AssetField::TargetAmount => a.target_amount,
    }
}

pub open spec fn views(v: Seq<Asset>) -> Seq<AssetView> {
    v.map_values(|a: Asset| a@)
}

/// The sum, in list order and from zero at scale 0, of one figure of the
/// assets.
pub open spec fn sum_field(s: Seq<AssetView>, f: AssetField) -> (int, int)
    decreases s.len(),
{
    if s.len() == 0 {
        (0, 0)
    } else {
        sum_repr(sum_field(s.drop_last(), f), field_of(s.last(), f))
    }
}

/// The exact sum of one figure of the assets, counted in units of `10^(-k)`.
pub open spec fn exact_units(s: Seq<AssetView>, f: AssetField, k: int) -> int
    decreases s.len(),
{
    if s.len() == 0 {
        0
    } else {
        exact_units(s.drop_last(), f, k) + units_at(field_of(s.last(), f), k)
    }
}

/// `k` is at least zero and at least the scale of the figure of every asset.
pub open spec fn fine_enough(s: Seq<AssetView>, f: AssetField, k: int) -> bool {
    k >= 0 && forall|i: int| 0 <= i < s.len() ==> #[trigger] field_of(s[i], f).1 <= k
}

/// The target percentages sum to exactly 100.
pub open spec fn targets_sum_to_hundred(s: Seq<AssetView>) -> bool {
    forall|k: int|
        #[trigger] fine_enough(s, AssetField::TargetPercentage, k) ==> exact_units(
            s,
            AssetField::TargetPercentage,
            k,
        ) == 100 * pow10(k as nat)
}

/// Each product `total * target_percentage`, whose hundredth is a target
/// amount, has fewer than 98 digits, so that the hundredth is exact.
pub open spec fn targets_divide_exactly(s: Seq<AssetView>) -> bool {
    let total = sum_field(s, AssetField::CurrentAmount);
    forall|i: int|
        0 <= i < s.len() ==> abs(#[trigger] product_repr(total, s[i].target_percentage).0) < pow10(98)
}

/// No asset has an empty name.
pub open spec fn names_present(s: Seq<AssetView>) -> bool {
    forall|i: int| 0 <= i < s.len() ==> #[trigger] s[i].name.len() > 0
}

/// The asset with its derived figures for a portfolio whose current amounts
/// sum to `total`: `current_amount * 100 / total` and
/// `total * target_percentage / 100`.
pub open spec fn derived(a: AssetView, total: (int, int)) -> AssetView {
    AssetView {
        current_percentage: quotient_repr(product_repr(a.current_amount, (100, 0)), total),
        target_amount: quotient_repr(product_repr(total, a.target_percentage), (100, 0)),
        ..a
    }
}

/// Every asset with its derived figures.
pub open spec fn rebalanced(s: Seq<AssetView>) -> Seq<AssetView> {
    Seq::new(s.len(), |i: int| derived(s[i], sum_field(s, AssetField::CurrentAmount)))
}

/// A sum rounded to three decimal places, ties away from zero.
pub open spec fn rounded(d: (int, int)) -> (int, int) {
    (round_half_up_3(d), 3)
}

/// The first check that the rebalanced figures fail, as its message, if any.
pub open spec fn validation_error(r: Seq<AssetView>) -> Option<Seq<char>> {
    let current_percentage = rounded(sum_field(r, AssetField::CurrentPercentage));
    let target_percentage = rounded(sum_field(r, AssetField::TargetPercentage));
    let target_amount = rounded(sum_field(r, AssetField::TargetAmount));
    let current_amount = rounded(sum_field(r, AssetField::CurrentAmount));
    if exists|i: int| 0 <= i < r.len() && r[i].name.len() == 0 {
        Some("Empty asset name"@)
    } else if !same_value(current_percentage, (100, 0)) {
        Some(
            "Sum of current percentage should be equal to 100%. Actual result is: "@ + text_of(
                current_percentage,
            ),
        )
    } else if !same_value(target_percentage, (100, 0)) {
        Some(
            "Sum of target percentage should be equal to 100%. Actual result is: "@ + text_of(
                target_percentage,
            ),
        )
    } else if !same_value(target_amount, current_amount) {
        Some(
            "Sum of target amount: "@ + text_of(target_amount)
                + ", should be equal to current amount: "@ + text_of(current_amount),
        )
    } else {
        None
    }
}

/// Why rebalancing the assets fails, as its message, if it does.
pub open spec fn rebalance_error(s: Seq<AssetView>) -> Option<Seq<char>> {
    if s.len() < 2 {
        Some("Rebalancing asset list of a size "@ + text_of((s.len() as int, 0)) + " is pointless"@)
    } else {
        validation_error(rebalanced(s))
    }
}

impl Asset {
    pub fn name(&self) -> (r: &str)
        ensures
            r@ == self@.name,
    {
        self.name.as_str()
    }

    pub fn current_amount(&self) -> (r: &Decimal)
        ensures
            r@ == self@.current_amount,
    {
        &self.current_amount
    }

    pub fn target_percentage(&self) -> (r: &Decimal)
        ensures
            r@ == self@.target_percentage,
    {
        &self.target_percentage
    }

    /// The current amount as a percentage of the portfolio's total; zero until
    /// a rebalance.
    pub fn current_percentage(&self) -> (r: &Decimal)
        ensures
            r@ == self@.current_percentage,
    {
        &self.current_percentage
    }

    /// The amount that meets the target percentage; zero until a rebalance.
    pub fn target_amount(&self) -> (r: &Decimal)
        ensures
            r@ == self@.target_amount,
    {
        &self.target_amount
    }

    /// Replaces the current amount with another that meets the rules of
    /// construction.
    pub fn set_current_amount(&mut self, current_amount: Decimal)
        requires
            old(self).wf(),
            current_amount.small_scale(),
            valid_figures(current_amount@, old(self)@.target_percentage),
        ensures
            final(self).wf(),
            final(self)@ == (AssetView { current_amount: current_amount@, ..old(self)@ }),
    {
        self.current_amount = current_amount;
    }

    /// Replaces the target percentage with another that meets the rules of
    /// construction.
    pub fn set_target_percentage(&mut self, target_percentage: Decimal)
        requires
            old(self).wf(),
            target_percentage.small_scale(),
            valid_figures(old(self)@.current_amount, target_percentage@),
        ensures
            final(self).wf(),
            final(self)@ == (AssetView { target_percentage: target_percentage@, ..old(self)@ }),
    {
        self.target_percentage = target_percentage;
    }

    pub fn field(&self, f: AssetField) -> (r: &Decimal)
        ensures
            r@ == field_of(self@, f),
    {
        match f {
            AssetField::CurrentAmount => &self.current_amount,
            AssetField::TargetPercentage => &self.target_percentage,
            AssetField::CurrentPercentage => &self.current_percentage,
            AssetField::TargetAmount => &self.target_amount,
        }
    }
}

impl Default for AssetList {
    fn default() -> (r: AssetList)
        ensures
            r.wf(),
            r@ == Seq::<AssetView>::empty(),
    {
        let r = AssetList { assets: Vec::new() };
        assert(r@ =~= Seq::<AssetView>::empty());
        r
    }
}

/// Sums one figure of the assets; the scale of the sum stays within the
/// bounds that hold for every term and for zero.
fn sum_figures(assets: &Vec<Asset>, f: AssetField, Ghost(lo): Ghost<int>, Ghost(hi): Ghost<int>) -> (r: Decimal)
    requires
        -QUOTIENT_SCALE_LIMIT <= lo <= 0 <= hi <= QUOTIENT_SCALE_LIMIT,
        forall|i: int| 0 <= i < assets.len() ==> lo <= #[trigger] field_of(assets[i]@, f).1 <= hi,
    ensures
        r@ == sum_field(views(assets@), f),
        lo <= r@.1 <= hi,
        assets.len() > 0 && (forall|i: int| 0 <= i < assets.len() ==> #[trigger] field_of(assets[i]@, f).0 > 0)
            ==> r@.0 > 0,
        forall|k: int|
            #[trigger] fine_enough(views(assets@), f, k) ==> r@.1 <= k && units_at(r@, k)
                == exact_units(views(assets@), f, k),
{
    let mut acc = Decimal::zero();
    let mut i: usize = 0;
    while i < assets.len()
        invariant
            0 <= i <= assets.len(),
            -QUOTIENT_SCALE_LIMIT <= lo <= 0 <= hi <= QUOTIENT_SCALE_LIMIT,
            forall|j: int| 0 <= j < assets.len() ==> lo <= #[trigger] field_of(assets[j]@, f).1 <= hi,
            acc@ == sum_field(views(assets@).take(i as int), f),
            lo <= acc@.1 <= hi,
            (forall|j: int| 0 <= j < assets.len() ==> #[trigger] field_of(assets[j]@, f).0 > 0)
                ==> acc@.0 >= 0 && (i > 0 ==> acc@.0 > 0),
            forall|k: int|
                #[trigger] fine_enough(views(assets@).take(i as int), f, k) ==> acc@.1 <= k
                    && units_at(acc@, k) == exact_units(views(assets@).take(i as int), f, k),
        decreases assets.len() - i,
    {
        let term = assets[i].field(f);
        let ghost before = acc@;
        acc = sum_of(&acc, term);
        proof {
            if forall|j: int| 0 <= j < assets.len() ==> #[trigger] field_of(assets[j]@, f).0 > 0 {
                assert(field_of(assets[i as int]@, f).0 > 0);
                lemma_sum_positive(
                    before,
                    term@,
                    acc@,
                    max_scale(acc@.1, max_scale(before.1, term@.1)),
                );
            }
        }
        i = i + 1;
        proof {
            let s = views(assets@).take(i as int);
            let prev = views(assets@).take(i - 1);
            assert(s.drop_last() =~= prev);
            assert(s.last() == assets[i - 1]@);
            assert forall|k: int| #[trigger] fine_enough(s, f, k) implies acc@.1 <= k && units_at(acc@, k)
                == exact_units(s, f, k) by {
                assert forall|j: int| 0 <= j < prev.len() implies #[trigger] field_of(prev[j], f).1 <= k by {
                    assert(prev[j] == s[j]);
                }
                assert(fine_enough(prev, f, k));
                assert(field_of(s[i - 1], f).1 <= k);
                let k0 = max_scale(acc@.1, max_scale(before.1, term@.1));
                lemma_units_rescale(acc@, k0, k);
                lemma_units_rescale(before, k0, k);
                lemma_units_rescale(term@, k0, k);
                let p = pow10((k - k0) as nat);
                assert((units_at(before, k0) + units_at(term@, k0)) * p == units_at(before, k0) * p
                    + units_at(term@, k0) * p) by (nonlinear_arith);
            }
        }
    }
    assert(views(assets@).take(i as int) =~= views(assets@));
    acc
}

/// A keyed list of assets: names are unique, and each asset meets the rules of
/// construction.
pub struct AssetList {
    assets: Vec<Asset>,
}

impl View for AssetList {
    type V = Seq<AssetView>;

    closed spec fn view(&self) -> Seq<AssetView> {
        views(self.assets@)
    }
}

/// Checks the rebalanced assets, in the order that `validation_error` gives.
/// Where no name is empty, the target percentages sum to exactly 100 and
/// each target amount is an exact hundredth, the target-percentage and
/// amount checks pass on the derived list.
proof fn lemma_checks_pass(
    assets: &Vec<Asset>,
    before: Seq<AssetView>,
    targets: (int, int),
    goals: (int, int),
    amounts: (int, int),
)
    requires
        forall|i: int| 0 <= i < assets.len() ==> #[trigger] assets[i].wf(),
        assets.len() == before.len(),
        views(assets@) == rebalanced(before),
        forall|i: int| 0 <= i < assets.len() ==> (#[trigger] assets[i]@.target_amount).1 <= fine_scale(),
        ({
            let total = sum_field(before, AssetField::CurrentAmount);
            &&& -SCALE_LIMIT <= total.1 <= SCALE_LIMIT
            &&& forall|i: int|
                0 <= i < assets.len() && abs(product_repr(total, before[i].target_percentage).0) < pow10(98)
                    ==> units_at(#[trigger] assets[i]@.target_amount, fine_scale()) * 100 == total.0
                    * units_at(before[i].target_percentage, fine_scale() - total.1)
        }),
        names_present(before),
        targets_sum_to_hundred(before),
        targets_divide_exactly(before),
        targets == sum_field(views(assets@), AssetField::TargetPercentage),
        forall|k: int|
            #[trigger] fine_enough(views(assets@), AssetField::TargetPercentage, k) ==> targets.1 <= k
                && units_at(targets, k) == exact_units(views(assets@), AssetField::TargetPercentage, k),
        goals == sum_field(views(assets@), AssetField::TargetAmount),
        forall|k: int|
            #[trigger] fine_enough(views(assets@), AssetField::TargetAmount, k) ==> goals.1 <= k
                && units_at(goals, k) == exact_units(views(assets@), AssetField::TargetAmount, k),
        amounts == sum_field(views(assets@), AssetField::CurrentAmount),
    ensures
        !(exists|i: int| 0 <= i < views(assets@).len() && views(assets@)[i].name.len() == 0),
        same_value(rounded(targets), (100, 0)),
        same_value(rounded(goals), rounded(amounts)),
{
    let s = views(assets@);
    let total = sum_field(before, AssetField::CurrentAmount);
    lemma_rebalanced_keeps_inputs(before);
    assert forall|i: int| 0 <= i < s.len() implies s[i].name.len() > 0 by {
        assert(before[i].name.len() > 0);
    }
    // the target percentages
    let l = SCALE_LIMIT as int;
    assert forall|i: int| 0 <= i < s.len() implies #[trigger] field_of(s[i], AssetField::TargetPercentage).1
        <= l by {
        assert(assets[i].wf());
        assert(s[i] == assets[i]@);
    }
    assert(fine_enough(s, AssetField::TargetPercentage, l));
    assert forall|i: int| 0 <= i < before.len() implies #[trigger] field_of(
        before[i],
        AssetField::TargetPercentage,
    ).1 <= l by {
        assert(field_of(s[i], AssetField::TargetPercentage).1 <= l);
    }
    assert(fine_enough(before, AssetField::TargetPercentage, l));
    lemma_exact_units_agree(s, before, AssetField::TargetPercentage, l);
    assert(units_at((100, 0), l) == 100 * pow10(l as nat));
    lemma_same_units(targets, (100, 0), l);
    lemma_hundred_rounds_to_hundred(targets);
    // the target amounts
    let k = fine_scale();
    assert forall|i: int| 0 <= i < s.len() implies #[trigger] field_of(s[i], AssetField::TargetAmount).1
        <= k by {
        assert(s[i] == assets[i]@);
    }
    assert(fine_enough(s, AssetField::TargetAmount, k));
    assert forall|i: int| 0 <= i < s.len() implies units_at(#[trigger] s[i].target_amount, k) * 100
        == total.0 * units_at(before[i].target_percentage, k - total.1) by {
        assert(s[i] == assets[i]@);
        assert(abs(product_repr(total, before[i].target_percentage).0) < pow10(98));
    }
    lemma_target_sum(s, before, total, k);
    assert forall|i: int| 0 <= i < before.len() implies #[trigger] field_of(
        before[i],
        AssetField::TargetPercentage,
    ).1 <= k - total.1 by {
        assert(field_of(s[i], AssetField::TargetPercentage).1 <= l);
    }
    assert(fine_enough(before, AssetField::TargetPercentage, k - total.1));
    let pk = pow10((k - total.1) as nat);
    assert(exact_units(before, AssetField::TargetPercentage, k - total.1) == 100 * pk);
    assert(units_at(goals, k) == exact_units(s, AssetField::TargetAmount, k));
    assert(units_at(goals, k) == units_at(total, k)) by (nonlinear_arith)
        requires
            units_at(goals, k) * 100 == total.0 * (100 * pk),
            units_at(total, k) == total.0 * pk,
    ;
    lemma_same_units(goals, total, k);
    lemma_sum_field_agrees(s, before, AssetField::CurrentAmount);
    assert(amounts == total);
    if goals.1 <= total.1 {
        lemma_round_same_value(goals, total);
    } else {
        lemma_round_same_value(total, goals);
    }
}

/// `before` is the list that `assets` derive from; the current percentages
/// summed and rounded come to 100.
fn validate(assets: &Vec<Asset>, Ghost(before): Ghost<Seq<AssetView>>) -> (r: Result<(), String>)
    requires
        forall|i: int| 0 <= i < assets.len() ==> #[trigger] assets[i].wf(),
        assets.len() == before.len(),
        views(assets@) == rebalanced(before),
        forall|i: int| 0 <= i < before.len() ==> #[trigger] before[i].current_amount.1 <= SCALE_LIMIT,
        forall|i: int| 0 <= i < assets.len() ==> (#[trigger] assets[i]@.target_amount).1 <= fine_scale(),
        ({
            let total = sum_field(before, AssetField::CurrentAmount);
            forall|i: int|
                0 <= i < assets.len() && abs(product_repr(total, before[i].target_percentage).0) < pow10(98)
                    ==> units_at(#[trigger] assets[i]@.target_amount, fine_scale()) * 100 == total.0
                    * units_at(before[i].target_percentage, fine_scale() - total.1)
        }),
        ({
            let total = sum_field(before, AssetField::CurrentAmount);
            &&& total.0 > 0
            &&& -SCALE_LIMIT <= total.1 <= SCALE_LIMIT
            &&& units_at(total, fine_scale() + total.1) == exact_units(
                before,
                AssetField::CurrentAmount,
                fine_scale() + total.1,
            )
            &&& forall|i: int|
                0 <= i < assets.len() ==> share_close(
                    #[trigger] assets[i]@.current_percentage,
                    before[i].current_amount,
                    fine_scale(),
                    total.1,
                    total.0,
                )
        }),
    ensures
        same_value(rounded(sum_field(views(assets@), AssetField::CurrentPercentage)), (100, 0)),
        names_present(before) && targets_sum_to_hundred(before) && targets_divide_exactly(before)
            ==> validation_error(views(assets@)) is None,
        match r {
            Ok(()) => validation_error(views(assets@)) is None,
            Err(e) => validation_error(views(assets@)) == Some(e@),
        },
{
    let ghost s = views(assets@);
    assert forall|j: int| 0 <= j < assets.len() implies -SCALE_LIMIT <= #[trigger] field_of(
        assets[j]@,
        AssetField::CurrentAmount,
    ).1 <= SCALE_LIMIT by {
        assert(assets[j].wf());
    }
    assert forall|j: int| 0 <= j < assets.len() implies -SCALE_LIMIT <= #[trigger] field_of(
        assets[j]@,
        AssetField::TargetPercentage,
    ).1 <= SCALE_LIMIT by {
        assert(assets[j].wf());
    }
    assert forall|j: int| 0 <= j < assets.len() implies -2 * SCALE_LIMIT <= #[trigger] field_of(
        assets[j]@,
        AssetField::CurrentPercentage,
    ).1 <= QUOTIENT_SCALE_LIMIT by {
        assert(assets[j].wf());
    }
    assert forall|j: int| 0 <= j < assets.len() implies -2 * SCALE_LIMIT <= #[trigger] field_of(
        assets[j]@,
        AssetField::TargetAmount,
    ).1 <= QUOTIENT_SCALE_LIMIT by {
        assert(assets[j].wf());
    }
    let hundred = Decimal::hundred();
    let percentages = sum_figures(
        assets,
        AssetField::CurrentPercentage,
        Ghost(-2 * SCALE_LIMIT as int),
        Ghost(QUOTIENT_SCALE_LIMIT as int),
    );
    proof {
        let total = sum_field(before, AssetField::CurrentAmount);
        assert forall|i: int| 0 <= i < s.len() implies share_close(
            #[trigger] s[i].current_percentage,
            before[i].current_amount,
            fine_scale(),
            total.1,
            total.0,
        ) by {
            assert(s[i] == assets[i]@);
        }
        lemma_percentages_round_to_hundred(s, before, total, percentages@);
    }
    let targets = sum_figures(
        assets,
        AssetField::TargetPercentage,
        Ghost(-SCALE_LIMIT as int),
        Ghost(SCALE_LIMIT as int),
    );
    let goals = sum_figures(
        assets,
        AssetField::TargetAmount,
        Ghost(-2 * SCALE_LIMIT as int),
        Ghost(QUOTIENT_SCALE_LIMIT as int),
    );
    let amounts = sum_figures(
        assets,
        AssetField::CurrentAmount,
        Ghost(-SCALE_LIMIT as int),
        Ghost(SCALE_LIMIT as int),
    );
    proof {
        if names_present(before) && targets_sum_to_hundred(before) && targets_divide_exactly(before) {
            lemma_checks_pass(assets, before, targets@, goals@, amounts@);
        }
    }
    let current_percentage = round_3(&percentages);
    let target_percentage = round_3(&targets);
    let target_amount = round_3(&goals);
    let current_amount = round_3(&amounts);
    let mut i: usize = 0;
    while i < assets.len()
        invariant
            0 <= i <= assets.len(),
            s == views(assets@),
            forall|j: int| 0 <= j < i ==> s[j].name.len() > 0,
            same_value(rounded(sum_field(s, AssetField::CurrentPercentage)), (100, 0)),
            names_present(before) && targets_sum_to_hundred(before) && targets_divide_exactly(before)
                ==> validation_error(s) is None,
        decreases assets.len() - i,
    {
        if assets[i].name.as_str().is_empty() {
            assert(s[i as int].name.len() == 0);
            return Err(String::from_str("Empty asset name"));
        }
        i = i + 1;
    }
    if compare(&current_percentage, &hundred) != 0 {
        return Err(
            String::from_str(
                "Sum of current percentage should be equal to 100%. Actual result is: ",
            ).concat(to_text(&current_percentage).as_str()),
        );
    }
    if compare(&target_percentage, &hundred) != 0 {
        return Err(
            String::from_str(
                "Sum of target percentage should be equal to 100%. Actual result is: ",
            ).concat(to_text(&target_percentage).as_str()),
        );
    }
    if compare(&target_amount, &current_amount) != 0 {
        return Err(
            String::from_str("Sum of target amount: ").concat(to_text(&target_amount).as_str()).concat(
                ", should be equal to current amount: ",
            ).concat(to_text(&current_amount).as_str()),
        );
    }
    Ok(())
}

impl AssetList {
    pub closed spec fn wf(&self) -> bool {
        &&& forall|i: int| 0 <= i < self.assets.len() ==> #[trigger] self.assets[i].wf()
        &&& forall|i: int, j: int|
            0 <= i < j < self.assets.len() ==> self.assets[i]@.name != self.assets[j]@.name
    }

    /// Adds a newly built asset, or passes on the error that building it gave.
    /// A name already on the list is refused and leaves the list unchanged.
    pub fn insert(&mut self, asset: Result<Asset, &'static str>) -> (r: Result<(), &'static str>)
        requires
            old(self).wf(),
            asset matches Ok(a) ==> a.wf(),
        ensures
            final(self).wf(),
            match asset {
                Err(e) => r == Err::<(), &'static str>(e) && final(self)@ == old(self)@,
                Ok(a) => if exists|i: int| 0 <= i < old(self)@.len() && old(self)@[i].name == a@.name {
                    &&& r matches Err(e) && e@ == "Asset name already exists on a list"@
                    &&& final(self)@ == old(self)@
                } else {
                    r is Ok && final(self)@ == old(self)@.push(a@)
                },
            },
    {
        match asset {
            Err(e) => Err(e),
            Ok(a) => self.insert_new(a),
        }
    }

    fn insert_new(&mut self, asset: Asset) -> (r: Result<(), &'static str>)
        requires
            old(self).wf(),
            asset.wf(),
        ensures
            final(self).wf(),
            if exists|i: int| 0 <= i < old(self)@.len() && old(self)@[i].name == asset@.name {
                &&& r matches Err(e) && e@ == "Asset name already exists on a list"@
                &&& final(self)@ == old(self)@
            } else {
                r is Ok && final(self)@ == old(self)@.push(asset@)
            },
    {
        let mut i: usize = 0;
        while i < self.assets.len()
            invariant
                self.wf(),
                0 <= i <= self.assets.len(),
                forall|j: int| 0 <= j < i ==> self@[j].name != asset@.name,
            decreases self.assets.len() - i,
        {
            if self.assets[i].name == asset.name {
                proof { reveal_strlit("Asset name already exists on a list"); }
                assert(self@[i as int].name == asset@.name);
                return Err("Asset name already exists on a list");
            }
            i = i + 1;
        }
        let ghost before = self@;
        self.assets.push(asset);
        assert(self@ =~= before.push(asset@));
        assert forall|i: int, j: int| 0 <= i < j < self.assets.len() implies self.assets[i]@.name
            != self.assets[j]@.name by {
            assert(self@[i] == self.assets[i]@);
            assert(self@[j] == self.assets[j]@);
        }
        Ok(())
    }

    /// The asset of the given name, if there is one.
    pub fn get(&self, key: &String) -> (r: Option<&Asset>)
        requires
            self.wf(),
        ensures
            match r {
                Some(a) => exists|i: int| 0 <= i < self@.len() && self@[i] == a@ && a@.name == key@,
                None => forall|i: int| 0 <= i < self@.len() ==> self@[i].name != key@,
            },
            r matches Some(a) ==> a.wf(),
    {
        let mut i: usize = 0;
        while i < self.assets.len()
            invariant
                self.wf(),
                0 <= i <= self.assets.len(),
                forall|j: int| 0 <= j < i ==> self@[j].name != key@,
            decreases self.assets.len() - i,
        {
            if self.assets[i].name == *key {
                assert(self@[i as int] == self.assets[i as int]@);
                assert(self.assets[i as int].wf());
                return Some(&self.assets[i]);
            }
            i = i + 1;
        }
        None
    }

    /// The position of the asset of the given name, if there is one.
    fn position(&self, key: &String) -> (r: Option<usize>)
        ensures
            match r {
                Some(i) => i < self@.len() && self@[i as int].name == key@,
                None => forall|i: int| 0 <= i < self@.len() ==> self@[i].name != key@,
            },
    {
        let mut i: usize = 0;
        while i < self.assets.len()
            invariant
                0 <= i <= self.assets.len(),
                forall|j: int| 0 <= j < i ==> self@[j].name != key@,
            decreases self.assets.len() - i,
        {
            if self.assets[i].name == *key {
                return Some(i);
            }
            i = i + 1;
        }
        None
    }

    /// The asset of the given name, to change through its setters, if there
    /// is one. The list keeps its rules as long as the asset keeps its own and
    /// its name.
    pub fn get_mut(&mut self, key: &String) -> (r: Option<&mut Asset>)
        requires
            old(self).wf(),
        ensures
            match r {
                Some(a) => exists|i: int|
                    0 <= i < old(self)@.len() && old(self)@[i] == a@ && a@.name == key@ && a.wf()
                        && final(self)@ == old(self)@.update(i, final(a)@)
                        && (final(a).wf() && final(a)@.name == key@ ==> final(self).wf()),
                None => {
                    &&& forall|i: int| 0 <= i < old(self)@.len() ==> old(self)@[i].name != key@
                    &&& final(self)@ == old(self)@
                    &&& final(self).wf()
                },
            },
    {
        match self.position(key) {
            Some(i) => {
                assert(self.assets[i as int].wf());
                Some(&mut self.assets[i])
            },
            None => None,
        }
    }

    /// The asset at position `i`, in order of insertion.
    pub fn at(&self, i: usize) -> (r: &Asset)
        requires
            i < self@.len(),
        ensures
            r@ == self@[i as int],
    {
        &self.assets[i]
    }

    /// The number of assets.
    pub fn len(&self) -> (r: usize)
        ensures
            r == self@.len(),
    {
        self.assets.len()
    }

    /// The sum of one figure over all the assets, without rounding.
    pub fn summarize_fields(&self, f: AssetField) -> (r: Decimal)
        requires
            self.wf(),
        ensures
            r@ == sum_field(self@, f),
            forall|k: int| #[trigger] fine_enough(self@, f, k) ==> units_at(r@, k) == exact_units(self@, f, k),
    {
        assert forall|i: int| 0 <= i < self.assets.len() implies -QUOTIENT_SCALE_LIMIT <= #[trigger] field_of(
            self.assets[i]@,
            f,
        ).1 <= QUOTIENT_SCALE_LIMIT by {
            assert(self.assets[i].wf());
        }
        sum_figures(
            &self.assets,
            f,
            Ghost(-QUOTIENT_SCALE_LIMIT as int),
            Ghost(QUOTIENT_SCALE_LIMIT as int),
        )
    }

    /// Derives every asset's current percentage and target amount and checks
    /// the result. On success the assets hold the derived figures; on failure
    /// the list is left as it was and the message says which check failed.
    ///
    /// The current percentages of two or more assets always sum, once
    /// rounded, to 100: bigdecimal's hundred significant digits leave a drift
    /// far below the rounding. With no empty name, target percentages that sum
    /// to exactly 100 and target amounts that are exact hundredths, the
    /// rebalance succeeds.
    pub fn rebalance(&mut self) -> (r: Result<(), String>)
        requires
            old(self).wf(),
        ensures
            final(self).wf(),
            old(self)@.len() >= 2 && names_present(old(self)@) && targets_sum_to_hundred(old(self)@)
                && targets_divide_exactly(old(self)@) ==> r is Ok,
            old(self)@.len() >= 2 ==> same_value(
                rounded(sum_field(rebalanced(old(self)@), AssetField::CurrentPercentage)),
                (100, 0),
            ),
            match r {
                Ok(()) => {
                    &&& rebalance_error(old(self)@) is None
                    &&& final(self)@ == rebalanced(old(self)@)
                },
                Err(e) => {
                    &&& rebalance_error(old(self)@) == Some(e@)
                    &&& final(self)@ == old(self)@
                },
            },
    {
        let n = self.assets.len();
        if n < 2 {
            let count = from_i64(n as i64);
            let e = String::from_str("Rebalancing asset list of a size ").concat(
                to_text(&count).as_str(),
            ).concat(" is pointless");
            return Err(e);
        }
        let next = self.derive_all();
        proof {
            assert forall|i: int| 0 <= i < self@.len() implies #[trigger] self@[i].current_amount.1
                <= SCALE_LIMIT by {
                assert(self.assets[i].wf());
            }
        }
        match validate(&next, Ghost(self@)) {
            Ok(()) => {
                let ghost before = self@;
                self.assets = next;
                proof {
                    assert forall|i: int, j: int| 0 <= i < j < self.assets.len() implies self.assets[i]@.name
                        != self.assets[j]@.name by {
                        assert(self@[i] == rebalanced(before)[i]);
                        assert(self@[j] == rebalanced(before)[j]);
                    }
                }
                Ok(())
            },
            Err(e) => Err(e),
        }
    }

    /// A copy of the assets with their derived figures.
    fn derive_all(&self) -> (r: Vec<Asset>)
        requires
            self.wf(),
            self.assets.len() >= 1,
        ensures
            views(r@) == rebalanced(self@),
            forall|i: int| 0 <= i < r.len() ==> #[trigger] r[i].wf(),
            ({
                let total = sum_field(self@, AssetField::CurrentAmount);
                &&& total.0 > 0
                &&& -SCALE_LIMIT <= total.1 <= SCALE_LIMIT
                &&& units_at(total, fine_scale() + total.1) == exact_units(
                    self@,
                    AssetField::CurrentAmount,
                    fine_scale() + total.1,
                )
                &&& forall|i: int|
                    0 <= i < r.len() ==> share_close(
                        #[trigger] r[i]@.current_percentage,
                        self@[i].current_amount,
                        fine_scale(),
                        total.1,
                        total.0,
                    )
                &&& forall|i: int| 0 <= i < r.len() ==> (#[trigger] r[i]@.target_amount).1 <= fine_scale()
                &&& forall|i: int|
                    0 <= i < r.len() && abs(product_repr(total, self@[i].target_percentage).0) < pow10(98)
                        ==> units_at(#[trigger] r[i]@.target_amount, fine_scale()) * 100 == total.0
                        * units_at(self@[i].target_percentage, fine_scale() - total.1)
            }),
    {
        assert forall|j: int| 0 <= j < self.assets.len() implies -SCALE_LIMIT <= #[trigger] field_of(
            self.assets[j]@,
            AssetField::CurrentAmount,
        ).1 <= SCALE_LIMIT by {
            assert(self.assets[j].wf());
        }
        let total = sum_figures(
            &self.assets,
            AssetField::CurrentAmount,
            Ghost(-SCALE_LIMIT as int),
            Ghost(SCALE_LIMIT as int),
        );
        proof {
            assert forall|j: int| 0 <= j < self.assets.len() implies #[trigger] field_of(
                self.assets[j]@,
                AssetField::CurrentAmount,
            ).0 > 0 by {
                assert(self.assets[j].wf());
                lemma_positive_unscaled(self.assets[j]@.current_amount);
            }
            let k = fine_scale() + total@.1;
            assert forall|j: int| 0 <= j < self@.len() implies #[trigger] field_of(
                self@[j],
                AssetField::CurrentAmount,
            ).1 <= k by {
                assert(self.assets[j].wf());
            }
            assert(fine_enough(self@, AssetField::CurrentAmount, k));
        }
        let hundred = Decimal::hundred();
        let mut next: Vec<Asset> = Vec::new();
        let mut i: usize = 0;
        while i < self.assets.len()
            invariant
                self.wf(),
                0 <= i <= self.assets.len(),
                next.len() == i,
                total@ == sum_field(self@, AssetField::CurrentAmount),
                total@.0 != 0,
                -SCALE_LIMIT <= total@.1 <= SCALE_LIMIT,
                hundred@ == (100int, 0int),
                forall|j: int| 0 <= j < i ==> #[trigger] next[j]@ == derived(self@[j], total@),
                forall|j: int| 0 <= j < i ==> #[trigger] next[j].wf(),
                total@.0 > 0,
                forall|j: int|
                    0 <= j < i ==> share_close(
                        #[trigger] next[j]@.current_percentage,
                        self@[j].current_amount,
                        fine_scale(),
                        total@.1,
                        total@.0,
                    ),
                forall|j: int| 0 <= j < i ==> (#[trigger] next[j]@.target_amount).1 <= fine_scale(),
                forall|j: int|
                    0 <= j < i && abs(product_repr(total@, self@[j].target_percentage).0) < pow10(98)
                        ==> units_at(#[trigger] next[j]@.target_amount, fine_scale()) * 100 == total@.0
                        * units_at(self@[j].target_percentage, fine_scale() - total@.1),
            decreases self.assets.len() - i,
        {
            let a = &self.assets[i];
            assert(a.wf());
            let share = product_of(&a.current_amount, &hundred);
            let current_percentage = quotient_of(&share, &total);
            proof {
                lemma_positive_unscaled(a@.current_amount);
                lemma_share_close(
                    a@.current_amount,
                    share@,
                    total@,
                    current_percentage@,
                    fine_scale(),
                );
            }
            let goal = product_of(&total, &a.target_percentage);
            let target_amount = quotient_of(&goal, &hundred);
            proof {
                if abs(goal@.0) < pow10(98) {
                    lemma_target_exact(
                        total@,
                        a@.target_percentage,
                        goal@,
                        target_amount@,
                        fine_scale(),
                    );
                }
            }
            next.push(
                Asset {
                    name: a.name.clone(),
                    current_amount: a.current_amount.duplicate(),
                    target_percentage: a.target_percentage.duplicate(),
                    current_percentage,
                    target_amount,
                },
            );
            i = i + 1;
        }
        assert(views(next@) =~= rebalanced(self@));
        next
    }
}

} // verus!
