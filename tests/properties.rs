use bigdecimal::BigDecimal;
use rebalance::{Asset, AssetField, AssetList, Decimal};

/// The library's decimal holding the same value as `v`.
fn dec(v: BigDecimal) -> Decimal {
    let (n, s) = v.into_bigint_and_exponent();
    Decimal::new(n.to_signed_bytes_le(), s)
}

fn whole(v: i64) -> Decimal {
    dec(BigDecimal::from(v))
}

/// `unscaled * 10^(-scale)`.
fn scaled(unscaled: i64, scale: i64) -> Decimal {
    dec(BigDecimal::new(unscaled.into(), scale))
}

fn list_of(assets: &[(&str, Decimal, Decimal)]) -> AssetList {
    let mut list = AssetList::default();
    for (name, amount, percentage) in assets {
        let copy = |d: &Decimal| Decimal::new(d.unscaled_le.clone(), d.scale);
        let ret = list.insert(Asset::new(name.to_string(), copy(amount), copy(percentage)));
        assert_eq!(ret, Ok(()));
    }
    list
}

#[test]
fn target_percentages_short_of_hundred_are_reported() {
    let mut list = list_of(&[("a", whole(100), whole(30)), ("b", whole(20), whole(30))]);
    assert_eq!(
        list.rebalance(),
        Err("Sum of target percentage should be equal to 100%. Actual result is: 60.000".to_string())
    );
    // a failed rebalance leaves the derived figures untouched
    assert_eq!(list.get(&"a".to_string()).unwrap().current_percentage(), &whole(0));
    assert_eq!(list.get(&"b".to_string()).unwrap().target_amount(), &whole(0));
}

#[test]
fn rebalancing_twice_gives_the_same_figures() {
    let mut list = list_of(&[
        ("a", whole(10), whole(50)),
        ("b", whole(20), whole(30)),
        ("c", whole(70), whole(20)),
    ]);
    assert_eq!(list.rebalance(), Ok(()));
    let first: Vec<(Decimal, Decimal)> = ["a", "b", "c"]
        .iter()
        .map(|n| {
            let a = list.get(&n.to_string()).unwrap();
            let cp = a.current_percentage();
            let ta = a.target_amount();
            (
                Decimal::new(cp.unscaled_le.clone(), cp.scale),
                Decimal::new(ta.unscaled_le.clone(), ta.scale),
            )
        })
        .collect();
    assert_eq!(list.rebalance(), Ok(()));
    for (i, n) in ["a", "b", "c"].iter().enumerate() {
        let a = list.get(&n.to_string()).unwrap();
        assert_eq!(a.current_percentage(), &first[i].0);
        assert_eq!(a.target_amount(), &first[i].1);
    }
    assert_eq!(first[0].0, whole(10));
    assert_eq!(first[2].1, whole(20));
}

#[test]
fn empty_name_anywhere_fails_rebalance() {
    let mut list = list_of(&[("a", whole(1), whole(50)), ("", whole(1), whole(50))]);
    assert_eq!(list.rebalance(), Err("Empty asset name".to_string()));
    let mut list = list_of(&[("a", whole(1), whole(40)), ("b", whole(1), whole(30)), ("", whole(1), whole(30))]);
    assert_eq!(list.rebalance(), Err("Empty asset name".to_string()));
}

#[test]
fn thirds_round_to_a_whole() {
    let mut list = list_of(&[
        ("a", whole(1), scaled(33333, 3)),
        ("b", whole(1), scaled(33333, 3)),
        ("c", whole(1), scaled(33334, 3)),
    ]);
    assert_eq!(list.rebalance(), Ok(()));
    let third = dec(BigDecimal::from(100) / BigDecimal::from(3));
    assert_eq!(list.get(&"a".to_string()).unwrap().current_percentage(), &third);
    assert_eq!(list.get(&"a".to_string()).unwrap().target_amount(), &scaled(99999, 5));
    assert_eq!(list.get(&"c".to_string()).unwrap().target_amount(), &scaled(100002, 5));
}

#[test]
fn rounding_takes_ties_up() {
    let mut list = list_of(&[("a", whole(1), scaled(100005, 4)), ("b", whole(1), whole(20))]);
    assert_eq!(
        list.rebalance(),
        Err("Sum of target percentage should be equal to 100%. Actual result is: 30.001".to_string())
    );
}

#[test]
fn sums_are_exact() {
    let list = list_of(&[("a", scaled(15, 1), whole(50)), ("b", scaled(225, 2), whole(50))]);
    assert_eq!(list.summarize_fields(AssetField::CurrentAmount), scaled(375, 2));
    assert_eq!(list.summarize_fields(AssetField::TargetPercentage), whole(100));
    assert_eq!(list.summarize_fields(AssetField::TargetAmount), whole(0));
    assert_eq!(list.len(), 2);
}

#[test]
fn decimals_compare_by_value() {
    assert_eq!(whole(50), scaled(5000, 2));
    assert_ne!(whole(50), scaled(5001, 2));
    assert_eq!(whole(0), scaled(0, 7));
}

#[test]
fn construction_checks_each_figure() {
    assert!(matches!(Asset::new("x".to_string(), scaled(-1, 3), whole(10)), Err("Asset current amount is negative")));
    assert!(matches!(Asset::new("x".to_string(), scaled(0, 2), whole(10)), Err("Asset current amount is zero")));
    assert!(matches!(Asset::new("x".to_string(), whole(1), scaled(-5, 1)), Err("Asset target percentage is negative")));
    assert!(matches!(Asset::new("x".to_string(), whole(1), whole(0)), Err("Asset target percentage is zero")));
    assert!(matches!(Asset::new("x".to_string(), whole(1), scaled(100001, 3)), Err("Asset target percentage exceeds 100")));
    let a = Asset::new("x".to_string(), scaled(1, 9), whole(100)).ok().unwrap();
    assert_eq!(a.name(), "x");
    assert_eq!(a.current_amount(), &scaled(1, 9));
    assert_eq!(a.target_percentage(), &whole(100));
    assert_eq!(a.current_percentage(), &whole(0));
    assert_eq!(a.target_amount(), &whole(0));
}

#[test]
fn setters_replace_figures() {
    let mut a = Asset::new("x".to_string(), whole(1), whole(10)).ok().unwrap();
    a.set_current_amount(whole(7));
    a.set_target_percentage(scaled(125, 1));
    assert_eq!(a.current_amount(), &whole(7));
    assert_eq!(a.target_percentage(), &scaled(125, 1));
}

#[test]
fn duplicate_name_is_refused_and_list_unchanged() {
    let mut list = list_of(&[("a", whole(1), whole(50))]);
    assert_eq!(list.insert(Asset::new("a".to_string(), whole(2), whole(50))), Err("Asset name already exists on a list"));
    assert_eq!(list.len(), 1);
    assert_eq!(list.get(&"a".to_string()).unwrap().current_amount(), &whole(1));
    assert!(list.get(&"b".to_string()).is_none());
    assert_eq!(list.insert(Asset::new("A".to_string(), whole(2), whole(50))), Ok(()));
}

#[test]
fn list_of_one_names_its_size() {
    let mut list = list_of(&[("a", whole(1), whole(100))]);
    assert_eq!(list.rebalance(), Err("Rebalancing asset list of a size 1 is pointless".to_string()));
}

#[test]
fn percentages_summing_to_hundred_succeed() {
    let mut list = list_of(&[
        ("a", whole(1), whole(10)),
        ("b", whole(2), whole(10)),
        ("c", whole(3), whole(10)),
        ("d", whole(4), whole(10)),
        ("e", whole(5), whole(20)),
        ("f", whole(6), whole(20)),
        ("g", whole(7), whole(20)),
    ]);
    assert_eq!(list.rebalance(), Ok(()));
    let total = list.summarize_fields(AssetField::CurrentAmount);
    assert_eq!(total, whole(28));
    assert_eq!(list.summarize_fields(AssetField::TargetAmount), whole(28));
    assert_eq!(
        list.get(&"a".to_string()).unwrap().current_percentage(),
        &dec(BigDecimal::from(100) / BigDecimal::from(28))
    );
    assert_eq!(list.get(&"g".to_string()).unwrap().target_amount(), &scaled(56, 1));
}

#[test]
fn changes_through_get_mut_reach_the_list() {
    let mut list = list_of(&[("a", whole(100), whole(60)), ("b", whole(100), whole(40))]);
    list.get_mut(&"a".to_string()).unwrap().set_current_amount(whole(300));
    assert!(list.get_mut(&"c".to_string()).is_none());
    assert_eq!(list.rebalance(), Ok(()));
    let a = list.get(&"a".to_string()).unwrap();
    assert_eq!(a.current_percentage(), &whole(75));
    assert_eq!(a.target_amount(), &whole(240));
    assert_eq!(list.get(&"b".to_string()).unwrap().target_amount(), &whole(160));
}
