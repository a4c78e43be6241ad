//! The wire form of a collection.
//!
//! A collection is written as the number of its tiers followed by the tiers in
//! ascending order, each as its value, the number of its items and the items
//! in the order in which they were added. Numbers are written as eight bytes,
//! the most significant first; an item is written by the item type's own
//! codec. Reading accepts exactly what writing produces: tiers that are not
//! strictly ascending are refused.

use crate::amount::Amount;
use crate::multi::{groups_of, seqs_of, TieredMulti};
use crate::order::{ascending, lemma_ascending, strictly_ascending};
use std::collections::BTreeMap;
use vstd::prelude::*;

verus! {

/// Why a sequence of bytes does not stand for a value.
#[derive(Clone, Copy, Debug, PartialEq, Eq, Structural)]
pub enum DecodeError {
    /// The bytes end before the value does.
    UnexpectedEnd,
    /// A tier is not higher than the tier before it.
    NonCanonical,
}

/// The eight bytes that stand for `x`, the most significant first.
#[verifier::opaque]
pub open spec fn u64_bytes(x: u64) -> Seq<u8> {
    seq![
        (x >> 56) as u8,
        ((x >> 48) & 0xff) as u8,
        ((x >> 40) & 0xff) as u8,
        ((x >> 32) & 0xff) as u8,
        ((x >> 24) & 0xff) as u8,
        ((x >> 16) & 0xff) as u8,
        ((x >> 8) & 0xff) as u8,
        (x & 0xff) as u8,
    ]
}

/// The number that the first eight bytes of `b` stand for.
#[verifier::opaque]
pub open spec fn u64_value(b: Seq<u8>) -> u64 {
    (b[0] as u64) << 56 | (b[1] as u64) << 48 | (b[2] as u64) << 40 | (b[3] as u64) << 32 | (
    b[4] as u64) << 24 | (b[5] as u64) << 16 | (b[6] as u64) << 8 | (b[7] as u64)
}

/// Eight bytes written for a number are read as that number.
pub proof fn lemma_u64_round_trip(x: u64)
    ensures
        u64_bytes(x).len() == 8,
        u64_value(u64_bytes(x)) == x,
{
    reveal(u64_bytes);
    reveal(u64_value);
    let b = u64_bytes(x);
    assert(((x >> 56) as u8) as u64 == x >> 56) by (bit_vector);
    assert((((x >> 48) & 0xff) as u8) as u64 == (x >> 48) & 0xff) by (bit_vector);
    assert((((x >> 40) & 0xff) as u8) as u64 == (x >> 40) & 0xff) by (bit_vector);
    assert((((x >> 32) & 0xff) as u8) as u64 == (x >> 32) & 0xff) by (bit_vector);
    assert((((x >> 24) & 0xff) as u8) as u64 == (x >> 24) & 0xff) by (bit_vector);
    assert((((x >> 16) & 0xff) as u8) as u64 == (x >> 16) & 0xff) by (bit_vector);
    assert((((x >> 8) & 0xff) as u8) as u64 == (x >> 8) & 0xff) by (bit_vector);
    assert(((x & 0xff) as u8) as u64 == x & 0xff) by (bit_vector);
    assert((x >> 56) << 56 | ((x >> 48) & 0xff) << 48 | ((x >> 40) & 0xff) << 40 | ((x >> 32)
        & 0xff) << 32 | ((x >> 24) & 0xff) << 24 | ((x >> 16) & 0xff) << 16 | ((x >> 8) & 0xff)
        << 8 | (x & 0xff) == x) by (bit_vector);
}

/// A number is read back from the eight bytes written for it, whatever
/// follows them.
pub proof fn lemma_u64_then(x: u64, rest: Seq<u8>)
    ensures
        (u64_bytes(x) + rest).len() == 8 + rest.len(),
        u64_value(u64_bytes(x) + rest) == x,
        (u64_bytes(x) + rest).skip(8) == rest,
{
    lemma_u64_round_trip(x);
    let bytes = u64_bytes(x) + rest;
    assert(u64_value(bytes) == u64_value(u64_bytes(x))) by {
        reveal(u64_value);
        assert(bytes[0] == u64_bytes(x)[0]);
        assert(bytes[1] == u64_bytes(x)[1]);
        assert(bytes[2] == u64_bytes(x)[2]);
        assert(bytes[3] == u64_bytes(x)[3]);
        assert(bytes[4] == u64_bytes(x)[4]);
        assert(bytes[5] == u64_bytes(x)[5]);
        assert(bytes[6] == u64_bytes(x)[6]);
        assert(bytes[7] == u64_bytes(x)[7]);
    }
    assert(bytes.skip(8) =~= rest);
}

/// A value that can be written as bytes.
pub trait Encodable {
    /// The bytes that stand for the value.
    spec fn encoding(&self) -> Seq<u8>;

    /// Appends the bytes that stand for the value to `writer` and says how
    /// many they are.
    fn consensus_encode(&self, writer: &mut Vec<u8>) -> (written: usize)
        ensures
            final(writer)@ == old(writer)@ + self.encoding(),
            written == self.encoding().len(),
    ;
}

/// A value that can be read from bytes.
pub trait Decodable: Sized {
    /// The value that the start of `bytes` stands for, with the number of
    /// bytes that it takes, or the reason why there is none.
    spec fn decoding(bytes: Seq<u8>) -> Result<(Self, nat), DecodeError>;

    /// Reads a value from `bytes`, starting at `start`, and says where it
    /// ends.
    fn consensus_decode(bytes: &Vec<u8>, start: usize) -> (read: Result<(Self, usize), DecodeError>)
        requires
            start <= bytes@.len(),
        ensures
            match read {
                Ok((value, end)) => start <= end <= bytes@.len() && Self::decoding(
                    bytes@.skip(start as int),
                ) == Ok::<(Self, nat), DecodeError>((value, (end - start) as nat)),
                Err(e) => Self::decoding(bytes@.skip(start as int)) == Err::<
                    (Self, nat),
                    DecodeError,
                >(e),
            },
    ;
}

/// A value that is read back from the bytes written for it, whatever follows
/// them.
pub trait Codec: Encodable + Decodable {
    proof fn lemma_round_trip(&self, rest: Seq<u8>)
        ensures
            Self::decoding(self.encoding() + rest) == Ok::<(Self, nat), DecodeError>(
                (*self, self.encoding().len()),
            ),
    ;
}

impl Encodable for u64 {
    open spec fn encoding(&self) -> Seq<u8> {
        u64_bytes(*self)
    }

    fn consensus_encode(&self, writer: &mut Vec<u8>) -> (written: usize) {
        let x = *self;
        let ghost before = writer@;
        writer.push((x >> 56) as u8);
        writer.push(((x >> 48) & 0xff) as u8);
        writer.push(((x >> 40) & 0xff) as u8);
        writer.push(((x >> 32) & 0xff) as u8);
        writer.push(((x >> 24) & 0xff) as u8);
        writer.push(((x >> 16) & 0xff) as u8);
        writer.push(((x >> 8) & 0xff) as u8);
        writer.push((x & 0xff) as u8);
        proof {
            reveal(u64_bytes);
            assert(writer@ =~= before + u64_bytes(x));
        }
        8
    }
}

impl Decodable for u64 {
    open spec fn decoding(bytes: Seq<u8>) -> Result<(Self, nat), DecodeError> {
        if bytes.len() < 8 {
            Err(DecodeError::UnexpectedEnd)
        } else {
            Ok((u64_value(bytes), 8))
        }
    }

    fn consensus_decode(bytes: &Vec<u8>, start: usize) -> (read: Result<
        (Self, usize),
        DecodeError,
    >) {
        if bytes.len() - start < 8 {
            return Err(DecodeError::UnexpectedEnd);
        }
        let b0 = bytes[start] as u64;
        let b1 = bytes[start + 1] as u64;
        let b2 = bytes[start + 2] as u64;
        let b3 = bytes[start + 3] as u64;
        let b4 = bytes[start + 4] as u64;
        let b5 = bytes[start + 5] as u64;
        let b6 = bytes[start + 6] as u64;
        let b7 = bytes[start + 7] as u64;
        let x = b0 << 56 | b1 << 48 | b2 << 40 | b3 << 32 | b4 << 24 | b5 << 16 | b6 << 8 | b7;
        proof {
            reveal(u64_value);
        }
        Ok((x, start + 8))
    }
}

impl Codec for u64 {
    proof fn lemma_round_trip(&self, rest: Seq<u8>) {
        lemma_u64_round_trip(*self);
        lemma_u64_then(*self, rest);
    }
}

impl Encodable for () {
    open spec fn encoding(&self) -> Seq<u8> {
        Seq::empty()
    }

    fn consensus_encode(&self, writer: &mut Vec<u8>) -> (written: usize) {
        proof {
            assert(writer@ + Seq::<u8>::empty() =~= writer@);
        }
        0
    }
}

impl Decodable for () {
    open spec fn decoding(bytes: Seq<u8>) -> Result<(Self, nat), DecodeError> {
        Ok(((), 0))
    }

    fn consensus_decode(bytes: &Vec<u8>, start: usize) -> (read: Result<
        (Self, usize),
        DecodeError,
    >) {
        Ok(((), start))
    }
}

impl Codec for () {
    proof fn lemma_round_trip(&self, rest: Seq<u8>) {
    }
}

impl Encodable for Amount {
    open spec fn encoding(&self) -> Seq<u8> {
        u64_bytes(self.msats)
    }

    fn consensus_encode(&self, writer: &mut Vec<u8>) -> (written: usize) {
        self.msats.consensus_encode(writer)
    }
}

impl Decodable for Amount {
    open spec fn decoding(bytes: Seq<u8>) -> Result<(Self, nat), DecodeError> {
        match u64::decoding(bytes) {
            Ok((msats, n)) => Ok((Amount { msats }, n)),
            Err(e) => Err(e),
        }
    }

    fn consensus_decode(bytes: &Vec<u8>, start: usize) -> (read: Result<
        (Self, usize),
        DecodeError,
    >) {
        match u64::consensus_decode(bytes, start) {
            Ok((msats, end)) => Ok((Amount { msats }, end)),
            Err(e) => Err(e),
        }
    }
}

impl Codec for Amount {
    proof fn lemma_round_trip(&self, rest: Seq<u8>) {
        self.msats.lemma_round_trip(rest);
    }
}

/// The bytes that stand for the items `items`, one after the other.
pub open spec fn encoding_of_items<C: Encodable>(items: Seq<C>) -> Seq<u8>
    decreases items.len(),
{
    if items.len() == 0 {
        Seq::empty()
    } else {
        items.first().encoding() + encoding_of_items(items.drop_first())
    }
}

/// The bytes that stand for one tier: its value, the number of its items,
/// and the items.
pub open spec fn encoding_of_tier<C: Encodable>(k: u64, items: Seq<C>) -> Seq<u8> {
    u64_bytes(k) + u64_bytes(items.len() as u64) + encoding_of_items(items)
}

/// The bytes that stand for the tiers `tiers` of `m`, one after the other.
pub open spec fn encoding_along<C: Encodable>(m: Map<u64, Seq<C>>, tiers: Seq<u64>) -> Seq<u8>
    decreases tiers.len(),
{
    if tiers.len() == 0 {
        Seq::empty()
    } else {
        encoding_of_tier(tiers.first(), m[tiers.first()]) + encoding_along(m, tiers.drop_first())
    }
}

/// The bytes that stand for the collection `m`: the number of its tiers and
/// then the tiers in ascending order.
pub open spec fn encoding_of<C: Encodable>(m: Map<u64, Seq<C>>) -> Seq<u8> {
    u64_bytes(m.dom().len() as u64) + encoding_along(m, ascending(m.dom()))
}

/// The `count` items that the start of `bytes` stands for, with the number of
/// bytes that they take.
pub open spec fn decoding_of_items<C: Decodable>(bytes: Seq<u8>, count: nat) -> Result<
    (Seq<C>, nat),
    DecodeError,
>
    decreases count,
{
    if count == 0 {
        Ok((Seq::empty(), 0))
    } else {
        match C::decoding(bytes) {
            Err(e) => Err(e),
            Ok((x, n)) => match decoding_of_items::<C>(bytes.skip(n as int), (count - 1) as nat) {
                Err(e) => Err(e),
                Ok((rest, more)) => Ok((seq![x] + rest, n + more)),
            },
        }
    }
}

/// The `count` tiers that the start of `bytes` stands for, each with its
/// items, and the number of bytes that they take. Each tier has to be higher
/// than the one before it, and the first higher than `floor`, if there is
/// one.
pub open spec fn decoding_of_tiers<C: Decodable>(
    bytes: Seq<u8>,
    count: nat,
    floor: Option<u64>,
) -> Result<(Seq<(u64, Seq<C>)>, nat), DecodeError>
    decreases count,
{
    if count == 0 {
        Ok((Seq::empty(), 0))
    } else if bytes.len() < 8 {
        Err(DecodeError::UnexpectedEnd)
    } else if floor is Some && u64_value(bytes) <= floor->0 {
        Err(DecodeError::NonCanonical)
    } else if bytes.len() < 16 {
        Err(DecodeError::UnexpectedEnd)
    } else {
        let k = u64_value(bytes);
        let n = u64_value(bytes.skip(8));
        match decoding_of_items::<C>(bytes.skip(16), n as nat) {
            Err(e) => Err(e),
            Ok((items, used)) => match decoding_of_tiers::<C>(
                bytes.skip(16 + used as int),
                (count - 1) as nat,
                Some(k),
            ) {
                Err(e) => Err(e),
                Ok((rest, more)) => Ok((seq![(k, items)] + rest, 16 + used + more)),
            },
        }
    }
}

/// The collection that holds the tiers of `entries` with their items.
pub open spec fn collection_of<C>(entries: Seq<(u64, Seq<C>)>) -> Map<u64, Seq<C>>
    decreases entries.len(),
{
    if entries.len() == 0 {
        Map::empty()
    } else {
        collection_of(entries.drop_last()).insert(entries.last().0, entries.last().1)
    }
}

/// The collection that the start of `bytes` stands for, with the number of
/// bytes that it takes, or the reason why there is none.
pub open spec fn decoding_of<C: Decodable>(bytes: Seq<u8>) -> Result<
    (Map<u64, Seq<C>>, nat),
    DecodeError,
> {
    if bytes.len() < 8 {
        Err(DecodeError::UnexpectedEnd)
    } else {
        match decoding_of_tiers::<C>(bytes.skip(8), u64_value(bytes) as nat, None) {
            Err(e) => Err(e),
            Ok((entries, used)) => Ok((collection_of(entries), 8 + used)),
        }
    }
}

/// The items of two sequences, one after the other, are written as the
/// bytes of the first followed by the bytes of the second.
pub proof fn lemma_encoding_of_items_concat<C: Encodable>(a: Seq<C>, b: Seq<C>)
    ensures
        encoding_of_items(a + b) == encoding_of_items(a) + encoding_of_items(b),
    decreases a.len(),
{
    if a.len() == 0 {
        assert(a + b =~= b);
        assert(encoding_of_items(a) + encoding_of_items(b) =~= encoding_of_items(b));
    } else {
        lemma_encoding_of_items_concat(a.drop_first(), b);
        assert((a + b).drop_first() =~= a.drop_first() + b);
        assert(a.first().encoding() + (encoding_of_items(a.drop_first()) + encoding_of_items(b))
            =~= (a.first().encoding() + encoding_of_items(a.drop_first())) + encoding_of_items(
            b,
        ));
    }
}

/// The tiers of two sequences, one after the other, are written as the bytes
/// of the first followed by the bytes of the second.
pub proof fn lemma_encoding_along_concat<C: Encodable>(
    m: Map<u64, Seq<C>>,
    a: Seq<u64>,
    b: Seq<u64>,
)
    ensures
        encoding_along(m, a + b) == encoding_along(m, a) + encoding_along(m, b),
    decreases a.len(),
{
    if a.len() == 0 {
        assert(a + b =~= b);
        assert(encoding_along(m, a) + encoding_along(m, b) =~= encoding_along(m, b));
    } else {
        lemma_encoding_along_concat(m, a.drop_first(), b);
        assert((a + b).drop_first() =~= a.drop_first() + b);
        let head = encoding_of_tier(a.first(), m[a.first()]);
        assert(head + (encoding_along(m, a.drop_first()) + encoding_along(m, b)) =~= (head
            + encoding_along(m, a.drop_first())) + encoding_along(m, b));
    }
}

/// One item is written as its own bytes.
pub proof fn lemma_encoding_of_one_item<C: Encodable>(x: C)
    ensures
        encoding_of_items(seq![x]) == x.encoding(),
{
    let one = seq![x];
    assert(one.drop_first() =~= Seq::<C>::empty());
    assert(encoding_of_items(one.drop_first()) =~= Seq::<u8>::empty());
    assert(encoding_of_items(one) =~= x.encoding());
}

/// One tier is written as its own bytes.
pub proof fn lemma_encoding_along_one<C: Encodable>(m: Map<u64, Seq<C>>, k: u64)
    ensures
        encoding_along(m, seq![k]) == encoding_of_tier(k, m[k]),
{
    let one = seq![k];
    assert(one.drop_first() =~= Seq::<u64>::empty());
    assert(encoding_along(m, one.drop_first()) =~= Seq::<u8>::empty());
    assert(encoding_along(m, one) =~= encoding_of_tier(k, m[k]));
}

impl<C: Encodable> TieredMulti<C> {
    /// Appends the wire form of the collection to `writer` and says how many
    /// bytes it takes.
    pub fn consensus_encode(&self, writer: &mut Vec<u8>) -> (written: usize)
        ensures
            final(writer)@ == old(writer)@ + encoding_of(self@),
            written == encoding_of(self@).len(),
    {
        let ghost before = writer@;
        let ghost tiers = self.tier_seq();
        let from = writer.len();
        let groups = self.iter_tiers();
        proof {
            self.lemma_finite();
            lemma_ascending(self@.dom());
            assert(groups_of(groups@).len() == groups@.len());
            assert(tiers.take(0) =~= Seq::<u64>::empty());
        }
        let tier_count = groups.len() as u64;
        tier_count.consensus_encode(writer);
        let ghost head = before + u64_bytes(tier_count);
        proof {
            assert(head + encoding_along(self@, tiers.take(0)) =~= head);
        }
        let mut i: usize = 0;
        while i < groups.len()
            invariant
                i <= groups.len(),
                groups_of(groups@) == self.groups(),
                tiers == self.tier_seq(),
                groups@.len() == tiers.len(),
                writer@ == head + encoding_along(self@, tiers.take(i as int)),
            decreases groups.len() - i,
        {
            let tier = groups[i].0;
            let items = groups[i].1;
            let ghost k = tiers[i as int];
            let ghost done = writer@;
            proof {
                assert(groups_of(groups@)[i as int] == (k, self@[k]));
                assert(items@ == self@[k]);
                assert(items@.take(0) =~= Seq::<C>::empty());
            }
            tier.msats.consensus_encode(writer);
            let item_count = items.len() as u64;
            item_count.consensus_encode(writer);
            let ghost start = done + u64_bytes(k) + u64_bytes(item_count);
            proof {
                assert(start + encoding_of_items(items@.take(0)) =~= start);
            }
            let mut j: usize = 0;
            while j < items.len()
                invariant
                    j <= items.len(),
                    writer@ == start + encoding_of_items(items@.take(j as int)),
                decreases items.len() - j,
            {
                items[j].consensus_encode(writer);
                proof {
                    let one = seq![items@[j as int]];
                    lemma_encoding_of_items_concat(items@.take(j as int), one);
                    assert(items@.take(j + 1) =~= items@.take(j as int) + one);
                    lemma_encoding_of_one_item(items@[j as int]);
                    assert(start + encoding_of_items(items@.take(j as int)) + items@[j as int].encoding()
                        =~= start + (encoding_of_items(items@.take(j as int)) + items@[j as int].encoding()));
                }
                j += 1;
            }
            proof {
                assert(items@.take(items@.len() as int) =~= items@);
                let one = seq![k];
                lemma_encoding_along_concat(self@, tiers.take(i as int), one);
                assert(tiers.take(i + 1) =~= tiers.take(i as int) + one);
                lemma_encoding_along_one(self@, k);
                assert(writer@ =~= head + (encoding_along(self@, tiers.take(i as int))
                    + encoding_of_tier(k, self@[k])));
            }
            i += 1;
        }
        proof {
            assert(tiers.take(tiers.len() as int) =~= tiers);
            assert(writer@ =~= before + encoding_of(self@));
        }
        writer.len() - from
    }
}

/// What a reading yields that has `done` already, took `used` bytes for it,
/// and goes on with `rest`.
pub open spec fn continued<T>(
    done: Seq<T>,
    used: nat,
    rest: Result<(Seq<T>, nat), DecodeError>,
) -> Result<(Seq<T>, nat), DecodeError> {
    match rest {
        Err(e) => Err(e),
        Ok((more, n)) => Ok((done + more, used + n)),
    }
}

/// Reads `count` items from `bytes`, starting at `start`.
fn decode_items<C: Decodable>(bytes: &Vec<u8>, start: usize, count: u64) -> (read: Result<
    (Vec<C>, usize),
    DecodeError,
>)
    requires
        start <= bytes@.len(),
    ensures
        match read {
            Ok((items, end)) => start <= end <= bytes@.len() && decoding_of_items::<C>(
                bytes@.skip(start as int),
                count as nat,
            ) == Ok::<(Seq<C>, nat), DecodeError>((items@, (end - start) as nat)),
            Err(e) => decoding_of_items::<C>(bytes@.skip(start as int), count as nat) == Err::<
                (Seq<C>, nat),
                DecodeError,
            >(e),
        },
{
    let ghost whole = decoding_of_items::<C>(bytes@.skip(start as int), count as nat);
    let mut items: Vec<C> = Vec::new();
    let mut pos: usize = start;
    let mut left: u64 = count;
    proof {
        let rest = decoding_of_items::<C>(bytes@.skip(pos as int), left as nat);
        if rest is Ok {
            assert(items@ + rest->Ok_0.0 =~= rest->Ok_0.0);
        }
    }
    while left > 0
        invariant
            start <= pos <= bytes@.len(),
            whole == decoding_of_items::<C>(bytes@.skip(start as int), count as nat),
            whole == continued(
                items@,
                (pos - start) as nat,
                decoding_of_items::<C>(bytes@.skip(pos as int), left as nat),
            ),
        decreases left,
    {
        let ghost here = bytes@.skip(pos as int);
        let ghost done = items@;
        match C::consensus_decode(bytes, pos) {
            Ok((x, end)) => {
                items.push(x);
                proof {
                    assert(here.skip(end - pos) =~= bytes@.skip(end as int));
                    let rest = decoding_of_items::<C>(bytes@.skip(end as int), (left - 1) as nat);
                    if rest is Ok {
                        assert(done + (seq![x] + rest->Ok_0.0) =~= done.push(x) + rest->Ok_0.0);
                    }
                }
                pos = end;
            },
            Err(e) => {
                return Err(e);
            },
        }
        left -= 1;
    }
    proof {
        assert(items@ + Seq::<C>::empty() =~= items@);
    }
    Ok((items, pos))
}

impl<C: Decodable> TieredMulti<C> {
    /// Reads a collection from `bytes`, starting at `start`, and says where
    /// it ends. It refuses bytes that end too early, and tiers that are not
    /// strictly ascending.
    pub fn consensus_decode(bytes: &Vec<u8>, start: usize) -> (read: Result<
        (TieredMulti<C>, usize),
        DecodeError,
    >)
        requires
            start <= bytes@.len(),
        ensures
            match read {
                Ok((c, end)) => start <= end <= bytes@.len() && decoding_of::<C>(
                    bytes@.skip(start as int),
                ) == Ok::<(Map<u64, Seq<C>>, nat), DecodeError>((c@, (end - start) as nat)),
                Err(e) => decoding_of::<C>(bytes@.skip(start as int)) == Err::<
                    (Map<u64, Seq<C>>, nat),
                    DecodeError,
                >(e),
            },
    {
        let ghost input = bytes@.skip(start as int);
        let (count, first) = match u64::consensus_decode(bytes, start) {
            Ok(read) => read,
            Err(e) => {
                return Err(e);
            },
        };
        let ghost whole = decoding_of_tiers::<C>(input.skip(8), count as nat, None);
        let ghost mut entries: Seq<(u64, Seq<C>)> = Seq::empty();
        let mut map: BTreeMap<u64, Vec<C>> = BTreeMap::new();
        let mut floor: Option<u64> = None;
        let mut pos: usize = first;
        let mut left: u64 = count;
        proof {
            assert(input.skip(8) =~= bytes@.skip(pos as int));
            let rest = decoding_of_tiers::<C>(bytes@.skip(pos as int), left as nat, floor);
            if rest is Ok {
                assert(entries + rest->Ok_0.0 =~= rest->Ok_0.0);
            }
            assert(seqs_of(map@) =~= collection_of(entries));
        }
        while left > 0
            invariant
                first <= pos <= bytes@.len(),
                first == start + 8,
                input == bytes@.skip(start as int),
                count == u64_value(input),
                whole == decoding_of_tiers::<C>(input.skip(8), count as nat, None),
                whole == continued(
                    entries,
                    (pos - first) as nat,
                    decoding_of_tiers::<C>(bytes@.skip(pos as int), left as nat, floor),
                ),
                seqs_of(map@) == collection_of(entries),
            decreases left,
        {
            let ghost here = bytes@.skip(pos as int);
            let ghost done = entries;
            let (k, after_key) = match u64::consensus_decode(bytes, pos) {
                Ok(read) => read,
                Err(e) => {
                    return Err(e);
                },
            };
            match floor {
                Some(f) => {
                    if k <= f {
                        return Err(DecodeError::NonCanonical);
                    }
                },
                None => {},
            }
            proof {
                assert(here.skip(8) =~= bytes@.skip(after_key as int));
            }
            let (n, after_count) = match u64::consensus_decode(bytes, after_key) {
                Ok(read) => read,
                Err(e) => {
                    return Err(e);
                },
            };
            proof {
                assert(here.skip(16) =~= bytes@.skip(after_count as int));
            }
            let (items, end) = match decode_items::<C>(bytes, after_count, n) {
                Ok(read) => read,
                Err(e) => {
                    return Err(e);
                },
            };
            proof {
                let used = (end - after_count) as nat;
                assert(here.skip(16 + used as int) =~= bytes@.skip(end as int));
                let rest = decoding_of_tiers::<C>(
                    bytes@.skip(end as int),
                    (left - 1) as nat,
                    Some(k),
                );
                if rest is Ok {
                    assert(done + (seq![(k, items@)] + rest->Ok_0.0) =~= done.push((k, items@))
                        + rest->Ok_0.0);
                }
                entries = done.push((k, items@));
                assert(entries.drop_last() =~= done);
                assert(seqs_of(map@.insert(k, items)) =~= seqs_of(map@).insert(k, items@));
            }
            map.insert(k, items);
            floor = Some(k);
            pos = end;
            left -= 1;
        }
        proof {
            assert(entries + Seq::<(u64, Seq<C>)>::empty() =~= entries);
        }
        Ok((TieredMulti::new(map), pos))
    }
}

/// The tiers `tiers` of `m`, each with its items.
pub open spec fn entries_along<C>(m: Map<u64, Seq<C>>, tiers: Seq<u64>) -> Seq<(u64, Seq<C>)> {
    Seq::new(tiers.len(), |i: int| (tiers[i], m[tiers[i]]))
}

/// Items are read back from the bytes written for them, whatever follows.
pub proof fn lemma_items_round_trip<C: Codec>(items: Seq<C>, rest: Seq<u8>)
    ensures
        decoding_of_items::<C>(encoding_of_items(items) + rest, items.len()) == Ok::<
            (Seq<C>, nat),
            DecodeError,
        >((items, encoding_of_items(items).len())),
    decreases items.len(),
{
    if items.len() > 0 {
        let x = items.first();
        let tail = items.drop_first();
        let after = encoding_of_items(tail) + rest;
        let bytes = encoding_of_items(items) + rest;
        x.lemma_round_trip(after);
        lemma_items_round_trip(tail, rest);
        assert(bytes =~= x.encoding() + after);
        assert(bytes.skip(x.encoding().len() as int) =~= after);
        assert(seq![x] + tail =~= items);
    } else {
        assert(encoding_of_items(items).len() == 0);
        assert(items =~= Seq::<C>::empty());
    }
}

/// One tier is read back from the bytes written for it: first its value,
/// then the number of its items, then the items; what follows is left over.
proof fn lemma_tier_round_trip<C: Codec>(k: u64, items: Seq<C>, after: Seq<u8>)
    requires
        items.len() <= u64::MAX,
    ensures
        ({
            let bytes = encoding_of_tier(k, items) + after;
            let used = encoding_of_items(items).len();
            &&& bytes.len() >= 16
            &&& encoding_of_tier(k, items).len() == 16 + used
            &&& u64_value(bytes) == k
            &&& u64_value(bytes.skip(8)) == items.len()
            &&& decoding_of_items::<C>(bytes.skip(16), items.len()) == Ok::<
                (Seq<C>, nat),
                DecodeError,
            >((items, used))
            &&& bytes.skip(16 + used as int) == after
        }),
{
    let n = items.len() as u64;
    let bytes = encoding_of_tier(k, items) + after;
    let body = encoding_of_items(items) + after;
    assert(bytes =~= u64_bytes(k) + (u64_bytes(n) + body));
    lemma_u64_then(k, u64_bytes(n) + body);
    lemma_u64_then(n, body);
    lemma_u64_round_trip(k);
    lemma_u64_round_trip(n);
    lemma_items_round_trip(items, after);
    assert(bytes.skip(16) =~= body);
    assert(bytes.skip(16 + encoding_of_items(items).len() as int) =~= after);
}

/// Ascending tiers are read back from the bytes written for them, whatever
/// follows.
pub proof fn lemma_tiers_round_trip<C: Codec>(
    m: Map<u64, Seq<C>>,
    tiers: Seq<u64>,
    floor: Option<u64>,
    rest: Seq<u8>,
)
    requires
        strictly_ascending(tiers),
        floor is Some && tiers.len() > 0 ==> floor->0 < tiers[0],
        forall|i: int| 0 <= i < tiers.len() ==> m[#[trigger] tiers[i]].len() <= u64::MAX,
    ensures
        decoding_of_tiers::<C>(encoding_along(m, tiers) + rest, tiers.len(), floor) == Ok::<
            (Seq<(u64, Seq<C>)>, nat),
            DecodeError,
        >((entries_along(m, tiers), encoding_along(m, tiers).len())),
    decreases tiers.len(),
{
    if tiers.len() > 0 {
        let k = tiers.first();
        let items = m[k];
        let tail = tiers.drop_first();
        let after = encoding_along(m, tail) + rest;
        let bytes = encoding_along(m, tiers) + rest;
        assert(m[tiers[0]].len() <= u64::MAX);
        assert(bytes =~= encoding_of_tier(k, items) + after);
        lemma_tier_round_trip(k, items, after);
        assert(strictly_ascending(tail)) by {
            assert forall|i: int, j: int| 0 <= i < j < tail.len() implies tail[i] < tail[j] by {
                assert(tiers[i + 1] < tiers[j + 1]);
            }
        }
        assert forall|i: int| 0 <= i < tail.len() implies m[#[trigger] tail[i]].len()
            <= u64::MAX by {
            assert(tail[i] == tiers[i + 1]);
        }
        if tail.len() > 0 {
            assert(tiers[0] < tiers[1]);
        }
        lemma_tiers_round_trip(m, tail, Some(k), rest);
        assert(seq![(k, items)] + entries_along(m, tail) =~= entries_along(m, tiers));
    } else {
        assert(encoding_along(m, tiers).len() == 0);
        assert(entries_along(m, tiers) =~= Seq::<(u64, Seq<C>)>::empty());
    }
}

/// The collection of the entries along `tiers` has exactly those tiers, each
/// with the items that `m` holds there.
pub proof fn lemma_collection_of_entries<C>(m: Map<u64, Seq<C>>, tiers: Seq<u64>)
    ensures
        forall|k: u64| collection_of(entries_along(m, tiers)).contains_key(k) <==> tiers.contains(k),
        forall|k: u64| tiers.contains(k) ==> collection_of(entries_along(m, tiers))[k] == m[k],
    decreases tiers.len(),
{
    let entries = entries_along(m, tiers);
    if tiers.len() > 0 {
        let front = tiers.drop_last();
        lemma_collection_of_entries(m, front);
        assert(entries.drop_last() =~= entries_along(m, front));
        let last = tiers.last();
        assert forall|k: u64| collection_of(entries).contains_key(k) <==> tiers.contains(k) by {
            if tiers.contains(k) {
                let i = choose|i: int| 0 <= i < tiers.len() && tiers[i] == k;
                if i < front.len() {
                    assert(front[i] == k);
                }
            }
            if front.contains(k) {
                let i = choose|i: int| 0 <= i < front.len() && front[i] == k;
                assert(tiers[i] == k);
            }
            assert(tiers[tiers.len() - 1] == last);
        }
        assert forall|k: u64| tiers.contains(k) implies collection_of(entries)[k] == m[k] by {
            if k != last {
                let i = choose|i: int| 0 <= i < tiers.len() && tiers[i] == k;
                assert(front[i] == k);
                assert(front.contains(k));
            } else {
                assert(entries.last() == (last, m[last]));
            }
        }
    }
}

/// A collection is read back from the bytes written for it, whatever follows
/// them: reading yields the same tiers with the same items in the same
/// order, and takes exactly the bytes that were written.
pub proof fn lemma_wire_round_trip<C: Codec>(c: &TieredMulti<C>, rest: Seq<u8>)
    ensures
        decoding_of::<C>(encoding_of(c@) + rest) == Ok::<(Map<u64, Seq<C>>, nat), DecodeError>(
            (c@, encoding_of(c@).len()),
        ),
{
    let m = c@;
    c.lemma_finite();
    c.lemma_bounded();
    lemma_ascending(m.dom());
    let tiers = ascending(m.dom());
    let n = m.dom().len() as u64;
    let body = encoding_along(m, tiers) + rest;
    let bytes = encoding_of(m) + rest;
    assert(bytes =~= u64_bytes(n) + body);
    lemma_u64_then(n, body);
    assert forall|i: int| 0 <= i < tiers.len() implies m[#[trigger] tiers[i]].len()
        <= u64::MAX by {
        assert(tiers.contains(tiers[i]));
        assert(m.contains_key(tiers[i]));
    }
    lemma_tiers_round_trip(m, tiers, None, rest);
    lemma_collection_of_entries(m, tiers);
    let read = collection_of(entries_along(m, tiers));
    assert forall|k: u64| read.contains_key(k) <==> m.contains_key(k) by {
        assert(tiers.contains(k) <==> m.dom().contains(k));
    }
    assert forall|k: u64| m.contains_key(k) implies read[k] == m[k] by {
        assert(tiers.contains(k));
    }
    assert(read.dom() =~= m.dom());
    assert(read =~= m);
}

} // verus!
