use vstd::prelude::*;

verus! {

/// Failures that the raffle and royalty logic report to its caller.
#[derive(Debug, Clone, Copy, PartialEq, Eq, Structural)]
pub enum ContractError {
    /// A draw was asked of a raffle with nothing left in it.
    ExhaustedPopulation,
    /// A royalty configuration broke one of its rules: too many accounts,
    /// shares that do not add up to the basis, or a rate above the basis.
    InvalidRoyaltyConfig,
    /// A payout has more entries than the caller accepts.
    PayoutTooLarge,
    /// The deposit does not cover the price of the tokens bought.
    NotEnoughDeposit,
    /// What is left of the deposit does not cover the storage used.
    NotEnoughStorageDeposit,
}

} // verus!
