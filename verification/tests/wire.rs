use tiered_multi::codec::{DecodeError, Decodable, Encodable};
use tiered_multi::{Amount, TieredMulti};

fn sample() -> TieredMulti<u64> {
    TieredMulti::from_iter(vec![
        (Amount::from_msats(0x0102), 7),
        (Amount::from_msats(1), 0x1122334455667788),
        (Amount::from_msats(0x0102), 8),
    ])
}

fn number(x: u8) -> Vec<u8> {
    vec![0, 0, 0, 0, 0, 0, 0, x]
}

#[test]
fn a_number_is_written_most_significant_byte_first() {
    let mut out = vec![0xff];
    let written = 0x0102030405060708u64.consensus_encode(&mut out);
    assert_eq!(written, 8);
    assert_eq!(out, vec![0xff, 1, 2, 3, 4, 5, 6, 7, 8]);
    assert_eq!(u64::consensus_decode(&out, 1), Ok((0x0102030405060708u64, 9)));
    assert_eq!(u64::consensus_decode(&out, 2), Err(DecodeError::UnexpectedEnd));
    let mut out = vec![];
    u64::MAX.consensus_encode(&mut out);
    assert_eq!(out, vec![0xff; 8]);
    assert_eq!(u64::consensus_decode(&out, 0), Ok((u64::MAX, 8)));
}

#[test]
fn an_amount_is_written_as_its_msats_and_a_unit_as_nothing() {
    let mut out = vec![];
    assert_eq!(Amount::from_msats(258).consensus_encode(&mut out), 8);
    assert_eq!(().consensus_encode(&mut out), 0);
    assert_eq!(out, vec![0, 0, 0, 0, 0, 0, 1, 2]);
    assert_eq!(Amount::consensus_decode(&out, 0), Ok((Amount::from_msats(258), 8)));
    assert_eq!(<()>::consensus_decode(&out, 3), Ok(((), 3)));
    assert_eq!(Amount::consensus_decode(&out, 1), Err(DecodeError::UnexpectedEnd));
}

#[test]
fn a_collection_is_written_tier_by_tier() {
    let mut out = vec![];
    let written = sample().consensus_encode(&mut out);
    let mut expected = vec![];
    expected.extend(number(2)); // two tiers
    expected.extend(number(1)); // tier 1
    expected.extend(number(1)); // one item
    expected.extend(vec![0x11, 0x22, 0x33, 0x44, 0x55, 0x66, 0x77, 0x88]);
    expected.extend(vec![0, 0, 0, 0, 0, 0, 1, 2]); // tier 0x0102
    expected.extend(number(2)); // two items
    expected.extend(number(7));
    expected.extend(number(8));
    assert_eq!(out, expected);
    assert_eq!(written, expected.len());
}

#[test]
fn a_collection_is_read_back_as_it_was_written() {
    let mut out = vec![9, 9, 9];
    let written = sample().consensus_encode(&mut out);
    out.push(42);
    assert_eq!(
        TieredMulti::<u64>::consensus_decode(&out, 3),
        Ok((sample(), 3 + written))
    );
    let empty: TieredMulti<u64> = TieredMulti::default();
    let mut out = vec![];
    assert_eq!(empty.consensus_encode(&mut out), 8);
    assert_eq!(TieredMulti::<u64>::consensus_decode(&out, 0), Ok((empty, 8)));
}

#[test]
fn a_collection_of_units_is_read_back_with_its_counts() {
    let c = TieredMulti::from_iter(vec![
        (Amount::from_msats(5), ()),
        (Amount::from_msats(5), ()),
        (Amount::from_msats(3), ()),
    ]);
    let mut out = vec![];
    assert_eq!(c.consensus_encode(&mut out), 8 + 16 + 16);
    let (read, end) = TieredMulti::<()>::consensus_decode(&out, 0).unwrap();
    assert_eq!(end, out.len());
    assert_eq!(read, c);
    assert!(read.structural_eq(&c));
}

#[test]
fn reading_refuses_bytes_that_end_too_early() {
    let mut out = vec![];
    sample().consensus_encode(&mut out);
    for cut in 0..out.len() {
        let short = out[..cut].to_vec();
        assert_eq!(
            TieredMulti::<u64>::consensus_decode(&short, 0),
            Err(DecodeError::UnexpectedEnd)
        );
    }
}

#[test]
fn reading_refuses_tiers_that_do_not_ascend() {
    // Two tiers, 2 and then 1, without items.
    let mut descending = vec![];
    descending.extend(number(2));
    descending.extend(number(2));
    descending.extend(number(0));
    descending.extend(number(1));
    descending.extend(number(0));
    assert_eq!(
        TieredMulti::<u64>::consensus_decode(&descending, 0),
        Err(DecodeError::NonCanonical)
    );
    // The same tier twice.
    let mut twice = vec![];
    twice.extend(number(2));
    twice.extend(number(3));
    twice.extend(number(0));
    twice.extend(number(3));
    twice.extend(number(0));
    assert_eq!(
        TieredMulti::<u64>::consensus_decode(&twice, 0),
        Err(DecodeError::NonCanonical)
    );
    // Ascending tiers are fine, with or without items.
    let mut fine = vec![];
    fine.extend(number(2));
    fine.extend(number(3));
    fine.extend(number(0));
    fine.extend(number(4));
    fine.extend(number(1));
    fine.extend(number(9));
    let (read, end) = TieredMulti::<u64>::consensus_decode(&fine, 0).unwrap();
    assert_eq!(end, fine.len());
    assert_eq!(read.tier_count(), 2);
    assert_eq!(read.get(Amount::from_msats(3)), Some(&vec![]));
    assert_eq!(read.get(Amount::from_msats(4)), Some(&vec![9]));
}
