//! $SOON, the public-fungible test token: a fixed supply held by the token
//! component, dripped out by a public faucet.

use crate::address::ResourceId;
use vstd::prelude::*;

verus! {

/// 1,000,000 SOON at divisibility 6.
pub const INITIAL_SUPPLY_MICRO: u128 = 1_000_000_000_000;

/// 100 SOON per faucet drip.
pub const FAUCET_AMOUNT_MICRO: u128 = 100_000_000;

/// Why a faucet call is refused. The transaction then fails and nothing
/// changes.
#[derive(Clone, Copy, Debug, PartialEq, Eq, Structural)]
pub enum FaucetError {
    /// The token vault is empty.
    Empty,
    /// The drip counter is at its largest value.
    CountOverflow,
    /// The token vault holds less than one full drip.
    InsufficientBalance,
}

/// The state of the token component: its resource, the balance of its vault,
/// and how many drips it has handed out.
pub struct SoonToken {
    pub resource: ResourceId,
    pub balance: u128,
    pub faucet_count: u64,
}

impl SoonToken {
    /// Conservation: what the vault holds plus what the faucet has handed out
    /// is the initial supply.
    pub open spec fn wf(self) -> bool {
        self.balance + self.faucet_count * FAUCET_AMOUNT_MICRO == INITIAL_SUPPLY_MICRO
    }

    /// The token component right after minting the whole supply of
    /// `resource` into its vault.
    pub fn new(resource: ResourceId) -> (res: SoonToken)
        ensures
            res.resource == resource,
            res.balance == INITIAL_SUPPLY_MICRO,
            res.faucet_count == 0,
            res.wf(),
    {
        SoonToken { resource, balance: INITIAL_SUPPLY_MICRO, faucet_count: 0 }
    }

    /// Drips 100 SOON to the caller: returns the amount to withdraw from the
    /// vault. Open to anyone.
    pub fn faucet(&mut self) -> (res: Result<u128, FaucetError>)
        ensures
            old(self).balance == 0 ==> res == Err::<u128, FaucetError>(FaucetError::Empty),
            old(self).balance != 0 && old(self).faucet_count == u64::MAX ==> res == Err::<
                u128,
                FaucetError,
            >(FaucetError::CountOverflow),
            old(self).balance != 0 && old(self).faucet_count < u64::MAX && old(self).balance
                < FAUCET_AMOUNT_MICRO ==> res == Err::<u128, FaucetError>(
                FaucetError::InsufficientBalance,
            ),
            res is Err ==> *final(self) == *old(self),
            old(self).faucet_count < u64::MAX && old(self).balance >= FAUCET_AMOUNT_MICRO ==> {
                &&& res == Ok::<u128, FaucetError>(FAUCET_AMOUNT_MICRO)
                &&& final(self).balance == old(self).balance - FAUCET_AMOUNT_MICRO
                &&& final(self).faucet_count == old(self).faucet_count + 1
                &&& final(self).resource == old(self).resource
            },
            old(self).wf() ==> final(self).wf(),
            // The supply bounds the counter: a conserved token never hits it.
            old(self).wf() ==> res != Err::<u128, FaucetError>(FaucetError::CountOverflow),
    {
        if self.balance == 0 {
            return Err(FaucetError::Empty);
        }
        if self.faucet_count == u64::MAX {
            return Err(FaucetError::CountOverflow);
        }
        if self.balance < FAUCET_AMOUNT_MICRO {
            return Err(FaucetError::InsufficientBalance);
        }
        self.faucet_count = self.faucet_count + 1;
        self.balance = self.balance - FAUCET_AMOUNT_MICRO;
        Ok(FAUCET_AMOUNT_MICRO)
    }

    /// The balance of the token vault.
    pub fn balance(&self) -> (res: u128)
        ensures
            res == self.balance,
    {
        self.balance
    }

    /// The token's resource.
    pub fn resource_address(&self) -> (res: ResourceId)
        ensures
            res == self.resource,
    {
        self.resource
    }

    /// How many drips the faucet has handed out.
    pub fn faucet_count(&self) -> (res: u64)
        ensures
            res == self.faucet_count,
    {
        self.faucet_count
    }
}

} // verus!
