use tiered_multi::zip::TieredMultiZip;
use tiered_multi::{Amount, TieredMulti};

fn peer(tag: &str) -> TieredMulti<String> {
    TieredMulti::from_iter(vec![
        (Amount::from_msats(4), format!("{}-4a", tag)),
        (Amount::from_msats(1), format!("{}-1a", tag)),
        (Amount::from_msats(4), format!("{}-4b", tag)),
    ])
}

#[test]
fn zip_walks_structurally_equal_peers_in_lockstep() {
    let peers = vec![peer("x"), peer("y"), peer("z")];
    assert!(peers[0].structural_eq(&peers[1]));
    assert!(peers[0].structural_eq(&peers[2]));
    let inputs: Vec<Vec<(Amount, String)>> =
        peers.into_iter().map(|p| p.into_iter_items()).collect();
    assert!(TieredMultiZip::check_aligned(&inputs));
    let mut zip = TieredMultiZip::new(inputs);
    assert_eq!(
        zip.next(),
        Some((
            Amount::from_msats(1),
            vec!["x-1a".to_string(), "y-1a".to_string(), "z-1a".to_string()]
        ))
    );
    assert_eq!(
        zip.next(),
        Some((
            Amount::from_msats(4),
            vec!["x-4a".to_string(), "y-4a".to_string(), "z-4a".to_string()]
        ))
    );
    assert_eq!(
        zip.next(),
        Some((
            Amount::from_msats(4),
            vec!["x-4b".to_string(), "y-4b".to_string(), "z-4b".to_string()]
        ))
    );
    assert_eq!(zip.next(), None);
    assert_eq!(zip.next(), None);
}

#[test]
fn zip_of_one_peer_wraps_each_item() {
    let inputs = vec![peer("x").into_iter_items()];
    let steps = TieredMultiZip::new(inputs).into_vec();
    assert_eq!(
        steps,
        vec![
            (Amount::from_msats(1), vec!["x-1a".to_string()]),
            (Amount::from_msats(4), vec!["x-4a".to_string()]),
            (Amount::from_msats(4), vec!["x-4b".to_string()]),
        ]
    );
}

#[test]
fn zip_has_one_step_for_each_item_of_a_peer() {
    let inputs = vec![peer("x").into_iter_items(), peer("y").into_iter_items()];
    let steps = TieredMultiZip::new(inputs).into_vec();
    assert_eq!(steps.len(), 3);
    for (_, group) in &steps {
        assert_eq!(group.len(), 2);
        assert!(group[0].starts_with("x-"));
        assert!(group[1].starts_with("y-"));
    }
}

#[test]
fn zip_of_empty_peers_ends_at_once() {
    let inputs: Vec<Vec<(Amount, u8)>> = vec![vec![], vec![]];
    assert!(TieredMultiZip::check_aligned(&inputs));
    let mut zip = TieredMultiZip::new(inputs);
    assert_eq!(zip.next(), None);
}

#[test]
fn check_aligned_tells_what_cannot_be_zipped() {
    let none: Vec<Vec<(Amount, u8)>> = vec![];
    assert!(!TieredMultiZip::check_aligned(&none));
    let a = vec![(Amount::from_msats(1), 0u8), (Amount::from_msats(2), 0u8)];
    let shorter = vec![(Amount::from_msats(1), 1u8)];
    let other_tier = vec![(Amount::from_msats(1), 2u8), (Amount::from_msats(3), 2u8)];
    let same = vec![(Amount::from_msats(1), 3u8), (Amount::from_msats(2), 4u8)];
    assert!(TieredMultiZip::check_aligned(&vec![a.clone()]));
    assert!(TieredMultiZip::check_aligned(&vec![a.clone(), same.clone()]));
    assert!(!TieredMultiZip::check_aligned(&vec![a.clone(), shorter.clone()]));
    assert!(!TieredMultiZip::check_aligned(&vec![shorter, a.clone()]));
    assert!(!TieredMultiZip::check_aligned(&vec![a.clone(), other_tier]));
    assert!(!TieredMultiZip::check_aligned(&vec![a, same, vec![]]));
}
