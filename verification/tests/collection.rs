use std::collections::BTreeMap;

use tiered_multi::{Amount, InvalidAmountTierError, Tiered, TieredMulti};

fn sample() -> TieredMulti<char> {
    TieredMulti::from_iter(vec![
        (Amount::from_msats(8), 'p'),
        (Amount::from_msats(2), 'q'),
        (Amount::from_msats(8), 'r'),
        (Amount::from_msats(4), 's'),
        (Amount::from_msats(8), 't'),
    ])
}

fn catalog(tiers: Vec<u64>) -> Tiered<()> {
    let mut pairs: Vec<(Amount, ())> = Vec::new();
    for tier in tiers {
        pairs.push((Amount::from_msats(tier), ()));
    }
    Tiered::from_iter(pairs)
}

#[test]
fn amount_from_sats_is_a_thousand_msats() {
    assert_eq!(Amount::from_sats(3), Amount::from_msats(3000));
    assert_eq!(Amount::from_sats(3).msats, 3000);
    assert_eq!(Amount::from_msats(17).msats, 17);
}

#[test]
fn extend_appends_within_a_tier_and_creates_missing_tiers() {
    let mut c = sample();
    assert_eq!(c.get(Amount::from_msats(8)), Some(&vec!['p', 'r', 't']));
    assert_eq!(c.get(Amount::from_msats(2)), Some(&vec!['q']));
    assert_eq!(c.get(Amount::from_msats(3)), None);
    c.extend(vec![(Amount::from_msats(3), 'u'), (Amount::from_msats(2), 'v')]);
    assert_eq!(c.get(Amount::from_msats(3)), Some(&vec!['u']));
    assert_eq!(c.get(Amount::from_msats(2)), Some(&vec!['q', 'v']));
    assert_eq!(c.tier_count(), 4);
    c.push(Amount::from_msats(3), 'w');
    assert_eq!(c.get(Amount::from_msats(3)), Some(&vec!['u', 'w']));
}

#[test]
fn queries_on_a_sample() {
    let c = sample();
    assert_eq!(c.total_amount(), Amount::from_msats(30));
    assert_eq!(c.checked_total_amount(), Some(Amount::from_msats(30)));
    assert_eq!(c.item_count(), 5);
    assert_eq!(c.tier_count(), 3);
    assert_eq!(c.max_tier_len(), 3);
    assert!(!c.is_empty());
    assert_eq!(
        c.tiers(),
        vec![Amount::from_msats(2), Amount::from_msats(4), Amount::from_msats(8)]
    );
}

#[test]
fn queries_on_the_empty_collection() {
    let c: TieredMulti<char> = TieredMulti::default();
    assert_eq!(c.total_amount(), Amount::from_msats(0));
    assert_eq!(c.item_count(), 0);
    assert_eq!(c.tier_count(), 0);
    assert_eq!(c.max_tier_len(), 0);
    assert!(c.is_empty());
    assert_eq!(c.tiers(), vec![]);
    assert_eq!(c.iter_items().len(), 0);
}

#[test]
fn a_tier_without_items_counts_as_a_tier_but_holds_nothing() {
    let mut map: BTreeMap<u64, Vec<char>> = BTreeMap::new();
    map.insert(5, vec![]);
    map.insert(9, vec![]);
    let c = TieredMulti::new(map);
    assert_eq!(c.tier_count(), 2);
    assert!(c.is_empty());
    assert_eq!(c.item_count(), 0);
    assert_eq!(c.total_amount(), Amount::from_msats(0));
    assert_eq!(c.max_tier_len(), 0);
    assert_eq!(c.get(Amount::from_msats(5)), Some(&vec![]));
}

#[test]
fn checked_total_amount_is_none_on_overflow() {
    let c = TieredMulti::from_iter(vec![
        (Amount::from_msats(u64::MAX), ()),
        (Amount::from_msats(1), ()),
    ]);
    assert_eq!(c.checked_total_amount(), None);
    let c = TieredMulti::from_iter(vec![
        (Amount::from_msats(u64::MAX / 2 + 1), ()),
        (Amount::from_msats(u64::MAX / 2 + 1), ()),
    ]);
    assert_eq!(c.checked_total_amount(), None);
    let c = TieredMulti::from_iter(vec![
        (Amount::from_msats(u64::MAX - 1), ()),
        (Amount::from_msats(1), ()),
    ]);
    assert_eq!(c.checked_total_amount(), Some(Amount::from_msats(u64::MAX)));
}

#[test]
fn items_come_tier_by_tier_and_in_order_of_insertion() {
    let c = sample();
    let listed: Vec<(Amount, char)> = c.iter_items().into_iter().map(|(a, x)| (a, *x)).collect();
    let expected = vec![
        (Amount::from_msats(2), 'q'),
        (Amount::from_msats(4), 's'),
        (Amount::from_msats(8), 'p'),
        (Amount::from_msats(8), 'r'),
        (Amount::from_msats(8), 't'),
    ];
    assert_eq!(listed, expected);
    let groups: Vec<(Amount, Vec<char>)> =
        c.iter_tiers().into_iter().map(|(a, v)| (a, v.clone())).collect();
    assert_eq!(
        groups,
        vec![
            (Amount::from_msats(2), vec!['q']),
            (Amount::from_msats(4), vec!['s']),
            (Amount::from_msats(8), vec!['p', 'r', 't']),
        ]
    );
    assert_eq!(c.into_iter_items(), expected);
}

#[test]
fn get_mut_changes_one_tier_in_place() {
    let mut c = sample();
    assert!(c.get_mut(Amount::from_msats(3)).is_none());
    {
        let tier = c.get_mut(Amount::from_msats(8)).unwrap();
        assert_eq!(*tier, vec!['p', 'r', 't']);
        tier.pop();
        tier.push('z');
    }
    assert_eq!(c.get(Amount::from_msats(8)), Some(&vec!['p', 'r', 'z']));
    assert_eq!(c.get(Amount::from_msats(2)), Some(&vec!['q']));
    c.get_mut(Amount::from_msats(2)).unwrap().clear();
    assert_eq!(c.get(Amount::from_msats(2)), Some(&vec![]));
    assert_eq!(c.tier_count(), 3);
    assert_eq!(c.item_count(), 4);
}

#[test]
fn check_tiers_accepts_known_tiers_and_names_the_lowest_unknown_one() {
    let c = sample();
    assert_eq!(c.check_tiers(&catalog(vec![1, 2, 4, 8, 16])), Ok(()));
    assert_eq!(c.check_tiers(&catalog(vec![2, 4, 8])), Ok(()));
    assert_eq!(
        c.check_tiers(&catalog(vec![2, 8])),
        Err(InvalidAmountTierError(Amount::from_msats(4)))
    );
    assert_eq!(
        c.check_tiers(&catalog(vec![8])),
        Err(InvalidAmountTierError(Amount::from_msats(2)))
    );
    assert_eq!(
        c.check_tiers(&catalog(vec![])),
        Err(InvalidAmountTierError(Amount::from_msats(2)))
    );
    let empty: TieredMulti<char> = TieredMulti::default();
    assert_eq!(empty.check_tiers(&catalog(vec![])), Ok(()));
}

#[test]
fn structural_eq_compares_tiers_and_counts_only() {
    let a = sample();
    let b: TieredMulti<u32> = TieredMulti::from_iter(vec![
        (Amount::from_msats(2), 1),
        (Amount::from_msats(4), 2),
        (Amount::from_msats(8), 3),
        (Amount::from_msats(8), 4),
        (Amount::from_msats(8), 5),
    ]);
    assert!(a.structural_eq(&a));
    assert!(a.structural_eq(&b));
    assert!(b.structural_eq(&a));
    // One item less at a tier.
    let fewer: TieredMulti<u32> = TieredMulti::from_iter(vec![
        (Amount::from_msats(2), 1),
        (Amount::from_msats(4), 2),
        (Amount::from_msats(8), 3),
        (Amount::from_msats(8), 4),
    ]);
    assert!(!a.structural_eq(&fewer));
    assert!(!fewer.structural_eq(&a));
    // The same counts at other tiers.
    let shifted: TieredMulti<u32> = TieredMulti::from_iter(vec![
        (Amount::from_msats(2), 1),
        (Amount::from_msats(5), 2),
        (Amount::from_msats(8), 3),
        (Amount::from_msats(8), 4),
        (Amount::from_msats(8), 5),
    ]);
    assert!(!a.structural_eq(&shifted));
    // One tier more.
    let mut more = sample();
    more.push(Amount::from_msats(16), 'z');
    assert!(!a.structural_eq(&more));
    assert!(!more.structural_eq(&a));
    let empty: TieredMulti<u32> = TieredMulti::default();
    assert!(empty.structural_eq(&empty));
    assert!(!a.structural_eq(&empty));
}

#[test]
fn map_keeps_the_tiers_and_the_order() {
    let mapped: Result<TieredMulti<String>, ()> =
        sample().map(|amt, x| Ok(format!("{}{}", amt.msats, x)));
    let mapped = mapped.unwrap();
    assert!(mapped.structural_eq(&sample()));
    assert_eq!(
        mapped.get(Amount::from_msats(8)),
        Some(&vec!["8p".to_string(), "8r".to_string(), "8t".to_string()])
    );
    assert_eq!(mapped.get(Amount::from_msats(2)), Some(&vec!["2q".to_string()]));
    assert_eq!(mapped.get(Amount::from_msats(4)), Some(&vec!["4s".to_string()]));
}

#[test]
fn map_with_the_identity_changes_nothing() {
    let mapped: Result<TieredMulti<char>, ()> = sample().map(|_, x| Ok(x));
    assert_eq!(mapped, Ok(sample()));
}

#[test]
fn map_keeps_tiers_without_items() {
    let mut map: BTreeMap<u64, Vec<u8>> = BTreeMap::new();
    map.insert(5, vec![]);
    map.insert(9, vec![1]);
    let mapped: Result<TieredMulti<u8>, ()> = TieredMulti::new(map.clone()).map(|_, x| Ok(x + 1));
    let mapped = mapped.unwrap();
    assert_eq!(mapped.tier_count(), 2);
    assert_eq!(mapped.get(Amount::from_msats(5)), Some(&vec![]));
    assert_eq!(mapped.get(Amount::from_msats(9)), Some(&vec![2]));
}

#[test]
fn map_hands_back_the_first_error_in_canonical_order() {
    // 's' (tier 4) comes before 'r' (tier 8) in canonical order.
    let mapped: Result<TieredMulti<char>, String> = sample().map(|amt, x| {
        if x == 'r' || x == 's' {
            Err(format!("{} at {}", x, amt.msats))
        } else {
            Ok(x)
        }
    });
    assert_eq!(mapped, Err("s at 4".to_string()));
}

#[test]
fn new_takes_the_map_as_it_is() {
    let mut map: BTreeMap<u64, Vec<char>> = BTreeMap::new();
    map.insert(8, vec!['p', 'r', 't']);
    map.insert(2, vec!['q']);
    map.insert(4, vec!['s']);
    assert_eq!(TieredMulti::new(map), sample());
}

#[test]
fn a_catalog_keeps_the_last_value_of_a_tier() {
    let mut t = Tiered::from_iter(vec![
        (Amount::from_msats(4), 'a'),
        (Amount::from_msats(2), 'b'),
        (Amount::from_msats(4), 'c'),
    ]);
    assert_eq!(t.tier_count(), 2);
    assert_eq!(t.get(Amount::from_msats(4)), Some(&'c'));
    assert_eq!(t.get(Amount::from_msats(3)), None);
    assert_eq!(t.tiers(), vec![Amount::from_msats(2), Amount::from_msats(4)]);
    assert_eq!(t.insert(Amount::from_msats(2), 'd'), Some('b'));
    assert_eq!(t.insert(Amount::from_msats(1), 'e'), None);
    assert_eq!(t.get(Amount::from_msats(2)), Some(&'d'));
    let empty: Tiered<char> = Tiered::default();
    assert_eq!(empty.tier_count(), 0);
}
