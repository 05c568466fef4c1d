//! What the pallets share: origins of calls, dispatch errors, the runtime's
//! currency, and the bound on stored byte strings.

use vstd::prelude::*;

verus! {

/// Who a call comes from.
#[derive(Clone, Copy, Debug, PartialEq, Eq)]
pub enum Origin {
    /// The chain itself.
    Root,
    /// A call signed by an account.
    Signed(u64),
    /// An unsigned call.
    Unsigned,
}

/// Why a dispatched call failed.
#[derive(Clone, Copy, Debug, PartialEq, Eq)]
pub enum DispatchError<E> {
    /// The call was not signed.
    BadOrigin,
    /// The runtime's currency refused a transfer or a reserve.
    Currency,
    /// An error of the pallet.
    Module(E),
}

/// The account that signed a call, or `BadOrigin`.
pub fn ensure_signed<E>(origin: Origin) -> (r: Result<u64, DispatchError<E>>)
    ensures
        match origin {
            Origin::Signed(who) => r == Ok::<u64, DispatchError<E>>(who),
            _ => r == Err::<u64, DispatchError<E>>(DispatchError::BadOrigin),
        },
{
    match origin {
        Origin::Signed(who) => Ok(who),
        _ => Err(DispatchError::BadOrigin),
    }
}

/// Whether a transfer may leave the paying account below the existential
/// deposit.
#[derive(Clone, Copy, Debug, PartialEq, Eq)]
pub enum ExistenceRequirement {
    /// The paying account must stay alive.
    KeepAlive,
    /// The paying account may be reaped.
    AllowDeath,
}

/// An operation asked of the runtime's currency, with its outcome.
#[derive(Clone, Copy, Debug, PartialEq, Eq)]
pub enum CurrencyOp {
    /// A transfer of an amount from the first account to the second, and
    /// whether it was made.
    Transfer(u64, u64, u128, ExistenceRequirement, bool),
    /// A reserve of an amount of the account's free balance, and whether it
    /// was made.
    Reserve(u64, u128, bool),
}

/// The currency of the runtime that the pallets run in: balances are kept
/// by the runtime, and each operation either succeeds or is refused.
pub trait Currency {
    /// Moves `value` from `source` to `dest`; `false` when refused.
    fn transfer(&mut self, source: u64, dest: u64, value: u128, existence: ExistenceRequirement) -> bool;

    /// Sets `value` of the free balance of `who` aside; `false` when refused.
    fn reserve(&mut self, who: u64, value: u128) -> bool;
}

/// The runtime's currency, with the record of the operations the pallets
/// asked of it and of their outcomes.
pub struct Recorded<C> {
    /// The runtime's currency.
    pub currency: C,
    log: Ghost<Seq<CurrencyOp>>,
}

impl<C: Currency> Recorded<C> {
    /// The operations asked so far, oldest first, each with its outcome.
    pub closed spec fn ops(&self) -> Seq<CurrencyOp> {
        self.log@
    }

    /// `currency`, with nothing asked of it yet.
    pub fn new(currency: C) -> (r: Self)
        ensures
            r.ops() == Seq::<CurrencyOp>::empty(),
    {
        Recorded { currency, log: Ghost(Seq::empty()) }
    }

    /// Asks the currency to move `value` from `source` to `dest`; `false`
    /// when it refuses.
    pub fn transfer(&mut self, source: u64, dest: u64, value: u128, existence: ExistenceRequirement) -> (ok: bool)
        ensures
            final(self).ops() == old(self).ops().push(CurrencyOp::Transfer(source, dest, value, existence, ok)),
    {
        let ok = self.currency.transfer(source, dest, value, existence);
        self.log = Ghost(self.log@.push(CurrencyOp::Transfer(source, dest, value, existence, ok)));
        ok
    }

    /// Asks the currency to set `value` of the free balance of `who` aside;
    /// `false` when it refuses.
    pub fn reserve(&mut self, who: u64, value: u128) -> (ok: bool)
        ensures
            final(self).ops() == old(self).ops().push(CurrencyOp::Reserve(who, value, ok)),
    {
        let ok = self.currency.reserve(who, value);
        self.log = Ghost(self.log@.push(CurrencyOp::Reserve(who, value, ok)));
        ok
    }
}

/// The transfers that pay `payouts` from `from`, in order, all of them made.
pub open spec fn payout_transfers(from: u64, payouts: Seq<(u64, u128)>, existence: ExistenceRequirement) -> Seq<CurrencyOp> {
    payouts.map_values(|x: (u64, u128)| CurrencyOp::Transfer(from, x.0, x.1, existence, true))
}

/// Whether the record went from `before` to `after` by paying `payouts`
/// from `from` in order until the currency refused one of them.
pub open spec fn paid_until_refused(
    before: Seq<CurrencyOp>,
    after: Seq<CurrencyOp>,
    from: u64,
    payouts: Seq<(u64, u128)>,
    existence: ExistenceRequirement,
) -> bool {
    exists|k: int|
        0 <= k < payouts.len() && after == before + payout_transfers(from, payouts.take(k), existence).push(
            CurrencyOp::Transfer(from, payouts[k].0, payouts[k].1, existence, false),
        )
}

/// Whether a byte string fits a storage bound of `limit` bytes.
pub open spec fn fits(s: Seq<u8>, limit: u32) -> bool {
    s.len() <= limit
}

/// Whether `v` fits a storage bound of `limit` bytes, as turning it into a
/// bounded vector checks.
pub fn fits_limit(v: &Vec<u8>, limit: u32) -> (r: bool)
    ensures
        r == fits(v@, limit),
{
    v.len() as u64 <= limit as u64
}

/// The next value of an id counter, `None` when it would overflow.
pub fn next_id(id: u32) -> (r: Option<u32>)
    ensures
        match r {
            Some(n) => id < u32::MAX && n == id + 1,
            None => id == u32::MAX,
        },
{
    id.checked_add(1)
}

/// The account of a pallet with identifier `id`: the bytes `modl` followed
/// by the identifier, read as a little-endian 64-bit account.
pub open spec fn pallet_account(id: Seq<u8>) -> int {
    0x6d + 0x6f * 0x100 + 0x64 * 0x1_0000 + 0x6c * 0x100_0000 + id[0] * 0x1_0000_0000 + id[1]
        * 0x100_0000_0000 + id[2] * 0x1_0000_0000_0000 + id[3] * 0x100_0000_0000_0000
}

/// Computes [`pallet_account`].
pub fn account_of_pallet(id: [u8; 8]) -> (r: u64)
    ensures
        r == pallet_account(id@),
{
    let a: u64 = id[0] as u64;
    let b: u64 = id[1] as u64;
    let c: u64 = id[2] as u64;
    let d: u64 = id[3] as u64;
    0x6c64_6f6d + a * 0x1_0000_0000 + b * 0x100_0000_0000 + c * 0x1_0000_0000_0000 + d
        * 0x100_0000_0000_0000
}

} // verus!
