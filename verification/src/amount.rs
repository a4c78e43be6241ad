use vstd::prelude::*;

verus! {

/// A non-negative value in millisatoshi, the smallest unit the mint accounts in.
#[derive(Clone, Copy, Debug, PartialEq, Eq, Structural, PartialOrd, Ord, Hash)]
pub struct Amount {
    pub msats: u64,
}

impl Amount {
    /// The amount of `msats` millisatoshi.
    pub fn from_msats(msats: u64) -> (a: Amount)
        ensures
            a.msats == msats,
    {
        Amount { msats }
    }

    /// The amount of `sats` satoshi, one satoshi being 1000 millisatoshi.
    pub fn from_sats(sats: u64) -> (a: Amount)
        requires
            sats * 1000 <= u64::MAX,
        ensures
            a.msats == sats * 1000,
    {
        Amount { msats: sats * 1000 }
    }
}

/// The tiers that a sequence of amounts names, in millisatoshi.
pub open spec fn msats_of(amounts: Seq<Amount>) -> Seq<u64> {
    amounts.map_values(|a: Amount| a.msats)
}

} // verus!
