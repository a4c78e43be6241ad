use tiered_multi::{Amount, Tiered, TieredMulti};

fn coins(coins: Vec<(Amount, usize)>) -> TieredMulti<usize> {
    let mut pairs: Vec<(Amount, usize)> = Vec::new();
    for (amount, number) in coins {
        for _ in 0..number {
            pairs.push((amount, 0_usize));
        }
    }
    TieredMulti::from_iter(pairs)
}

fn tiers(tiers: Vec<u64>) -> Tiered<()> {
    let mut pairs: Vec<(Amount, ())> = Vec::new();
    for tier in tiers {
        pairs.push((Amount::from_sats(tier), ()));
    }
    Tiered::from_iter(pairs)
}

fn denominations(denominations: Vec<(Amount, usize)>) -> Tiered<usize> {
    Tiered::from_iter(denominations)
}

#[test]
fn represent_amount_targets_denomination_sets() {
    let starting = coins(vec![
        (Amount::from_sats(1), 1),
        (Amount::from_sats(2), 3),
        (Amount::from_sats(3), 2),
    ]);
    let tiers = tiers(vec![1, 2, 3, 4]);

    // target 3 tiers will fill out the 1 and 3 denominations
    assert_eq!(
        TieredMulti::represent_amount(Amount::from_sats(6), &starting, &tiers, 3),
        denominations(vec![
            (Amount::from_sats(1), 3),
            (Amount::from_sats(2), 0),
            (Amount::from_sats(3), 1),
            (Amount::from_sats(4), 0)
        ])
    );

    // target 2 tiers will fill out the 1 and 4 denominations
    assert_eq!(
        TieredMulti::represent_amount(Amount::from_sats(6), &starting, &tiers, 2),
        denominations(vec![
            (Amount::from_sats(1), 2),
            (Amount::from_sats(2), 0),
            (Amount::from_sats(3), 0),
            (Amount::from_sats(4), 1)
        ])
    );
}

#[test]
fn select_coins_returns_exact_amount() {
    let starting = coins(vec![
        (Amount::from_sats(1), 5),
        (Amount::from_sats(5), 5),
        (Amount::from_sats(20), 5),
    ]);

    assert_eq!(
        starting.select_coins(Amount::from_sats(7)),
        Some(coins(vec![
            (Amount::from_sats(1), 2),
            (Amount::from_sats(5), 1)
        ]))
    );
}

#[test]
fn select_coins_uses_smaller_denominations() {
    let starting = coins(vec![(Amount::from_sats(5), 5), (Amount::from_sats(20), 5)]);

    assert_eq!(
        starting.select_coins(Amount::from_sats(7)),
        Some(coins(vec![(Amount::from_sats(5), 2)]))
    );
}

#[test]
fn select_coins_returns_none_if_amount_is_too_large() {
    let starting = coins(vec![(Amount::from_sats(10), 1)]);

    assert_eq!(starting.select_coins(Amount::from_sats(100)), None);
}

#[test]
fn select_coins_covers_the_target_with_the_rest_in_low_tiers() {
    let starting = coins(vec![
        (Amount::from_msats(3), 2),
        (Amount::from_msats(10), 1),
    ]);
    // 16 in all. 11 cannot be hit: the 10 is kept, one 3 is passed over
    // and the other is needed, which makes 13.
    let selection = starting.select_coins(Amount::from_msats(11)).unwrap();
    assert_eq!(
        selection,
        coins(vec![(Amount::from_msats(3), 1), (Amount::from_msats(10), 1)])
    );
    assert_eq!(selection.total_amount(), Amount::from_msats(13));
    // 13 is hit exactly by the same items.
    let selection = starting.select_coins(Amount::from_msats(13)).unwrap();
    assert_eq!(selection.total_amount(), Amount::from_msats(13));
    // 14 needs everything.
    let selection = starting.select_coins(Amount::from_msats(14)).unwrap();
    assert_eq!(selection.total_amount(), Amount::from_msats(16));
    // 3 is covered by the lowest tier alone.
    let selection = starting.select_coins(Amount::from_msats(3)).unwrap();
    assert_eq!(selection, coins(vec![(Amount::from_msats(3), 1)]));
}

#[test]
fn select_coins_of_nothing_is_empty_and_of_everything_is_all() {
    let starting = coins(vec![(Amount::from_msats(2), 2), (Amount::from_msats(7), 1)]);
    let none = starting.select_coins(Amount::from_msats(0)).unwrap();
    assert_eq!(none.tier_count(), 0);
    assert!(none.is_empty());
    let all = starting.select_coins(Amount::from_msats(11)).unwrap();
    assert_eq!(all, starting);
    assert_eq!(starting.select_coins(Amount::from_msats(12)), None);
}

#[test]
fn select_coins_keeps_the_items_met_last_and_in_scan_order() {
    let starting = TieredMulti::from_iter(vec![
        (Amount::from_msats(5), 'a'),
        (Amount::from_msats(5), 'b'),
        (Amount::from_msats(5), 'c'),
        (Amount::from_msats(1), 'x'),
        (Amount::from_msats(1), 'y'),
    ]);
    // The scan passes over 'c' (17 - 5 = 12 >= 11), keeps 'b' and 'a',
    // passes over 'y' and keeps 'x'.
    let selection = starting.select_coins(Amount::from_msats(11)).unwrap();
    assert_eq!(
        selection.get(Amount::from_msats(5)),
        Some(&vec!['b', 'a'])
    );
    assert_eq!(selection.get(Amount::from_msats(1)), Some(&vec!['x']));
    assert_eq!(selection.total_amount(), Amount::from_msats(11));
}

#[test]
fn represent_amount_sums_to_the_target() {
    let holdings = coins(vec![(Amount::from_msats(1), 2), (Amount::from_msats(8), 1)]);
    let catalog = tiers_msats(vec![1, 2, 4, 8]);
    for target in 0..40u64 {
        for sets in 0..4u16 {
            let d = TieredMulti::represent_amount(
                Amount::from_msats(target),
                &holdings,
                &catalog,
                sets,
            );
            let mut sum = 0u64;
            for tier in d.tiers() {
                sum += tier.msats * (*d.get(tier).unwrap() as u64);
            }
            assert_eq!(sum, target);
            assert_eq!(d.tier_count(), 4);
        }
    }
}

fn tiers_msats(tiers: Vec<u64>) -> Tiered<()> {
    let mut pairs: Vec<(Amount, ())> = Vec::new();
    for tier in tiers {
        pairs.push((Amount::from_msats(tier), ()));
    }
    Tiered::from_iter(pairs)
}

#[test]
fn represent_amount_fills_low_tiers_first_then_spends_greedily() {
    let holdings: TieredMulti<()> = TieredMulti::default();
    let catalog = tiers_msats(vec![1, 10, 100]);
    // First pass: 2 of 1, 2 of 10, 2 of 100 (222 of 1000); 778 are left.
    // Second pass: 7 of 100, 7 of 10, 8 of 1.
    let d = TieredMulti::represent_amount(Amount::from_msats(1000), &holdings, &catalog, 2);
    assert_eq!(
        d,
        denominations(vec![
            (Amount::from_msats(1), 10),
            (Amount::from_msats(10), 9),
            (Amount::from_msats(100), 9),
        ])
    );
}

#[test]
fn represent_amount_counts_what_the_holder_has() {
    let holdings = coins(vec![(Amount::from_msats(1), 5), (Amount::from_msats(10), 1)]);
    let catalog = tiers_msats(vec![1, 10, 100]);
    // Nothing is missing at 1, one item at 10, two at 100, which 25 cannot
    // afford. After 10 are spent, 15 are left: one more 10 and five 1s.
    let d = TieredMulti::represent_amount(Amount::from_msats(25), &holdings, &catalog, 2);
    assert_eq!(
        d,
        denominations(vec![
            (Amount::from_msats(1), 5),
            (Amount::from_msats(10), 2),
            (Amount::from_msats(100), 0),
        ])
    );
}

#[test]
fn checked_represent_amount_refuses_what_cannot_be_represented() {
    let holdings: TieredMulti<()> = TieredMulti::default();
    // 7 is no multiple of 2.
    let even = tiers_msats(vec![2, 4]);
    assert_eq!(
        TieredMulti::checked_represent_amount(Amount::from_msats(7), &holdings, &even, 1),
        None
    );
    assert_eq!(
        TieredMulti::checked_represent_amount(Amount::from_msats(6), &holdings, &even, 1),
        Some(denominations(vec![
            (Amount::from_msats(2), 1),
            (Amount::from_msats(4), 1),
        ]))
    );
    // A tier worth nothing.
    let with_zero = tiers_msats(vec![0, 1]);
    assert_eq!(
        TieredMulti::checked_represent_amount(Amount::from_msats(3), &holdings, &with_zero, 1),
        None
    );
    // No tiers at all: only nothing can be represented.
    let empty = tiers_msats(vec![]);
    assert_eq!(
        TieredMulti::checked_represent_amount(Amount::from_msats(0), &holdings, &empty, 1),
        Some(denominations(vec![]))
    );
    assert_eq!(
        TieredMulti::checked_represent_amount(Amount::from_msats(1), &holdings, &empty, 1),
        None
    );
}
