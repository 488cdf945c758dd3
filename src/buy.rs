use vstd::prelude::*;

use crate::error::ContractError;

verus! {

/// One NEAR in yoctoNEAR.
pub const ONE_NEAR: u128 = 1_000_000_000_000_000_000_000_000;

/// What `n` tokens cost: their price, and the storage each takes beyond
/// the bare token.
pub open spec fn cost_spec(n: nat, storage_byte_cost: nat, extra_bytes_per_token: nat) -> nat {
    n * (ONE_NEAR as nat) + n * (storage_byte_cost * extra_bytes_per_token)
}

/// The price of one token.
pub fn unit_price() -> (r: u128)
    ensures
        r == ONE_NEAR,
{
    ONE_NEAR
}

/// The price of `n` tokens, storage left out.
pub fn mint_cost_for(n: u64) -> (r: u128)
    requires
        n * ONE_NEAR <= u128::MAX,
    ensures
        r == n * ONE_NEAR,
{
    (n as u128) * unit_price()
}

/// The cost of buying `n` tokens: their price and the storage they take.
pub fn cost_for(n: u64, storage_byte_cost: u128, extra_bytes_per_token: u64) -> (r: u128)
    requires
        cost_spec(n as nat, storage_byte_cost as nat, extra_bytes_per_token as nat) <= u128::MAX,
    ensures
        r == cost_spec(n as nat, storage_byte_cost as nat, extra_bytes_per_token as nat),
{
    let ghost per = storage_byte_cost * extra_bytes_per_token;
    proof {
        assert(n * ONE_NEAR <= cost_spec(n as nat, storage_byte_cost as nat, extra_bytes_per_token as nat))
            by (nonlinear_arith)
            requires
                n >= 0,
                per >= 0,
                cost_spec(n as nat, storage_byte_cost as nat, extra_bytes_per_token as nat)
                    == n * ONE_NEAR + n * per,
        ;
    }
    let mint_cost = mint_cost_for(n);
    if n == 0 {
        assert(cost_spec(0, storage_byte_cost as nat, extra_bytes_per_token as nat) == 0) by (nonlinear_arith);
        return mint_cost;
    }
    proof {
        assert(per <= n * per && n * per == per * n) by (nonlinear_arith)
            requires
                n >= 1,
                per >= 0,
        ;
    }
    let storage_cost_per_token = storage_byte_cost * (extra_bytes_per_token as u128);
    let storage_cost = storage_cost_per_token * (n as u128);
    mint_cost + storage_cost
}

/// Checks that `deposit` pays for `n` tokens.
pub fn assert_deposit(n: u64, deposit: u128, storage_byte_cost: u128, extra_bytes_per_token: u64) -> (r:
    Result<(), ContractError>)
    requires
        cost_spec(n as nat, storage_byte_cost as nat, extra_bytes_per_token as nat) <= u128::MAX,
    ensures
        r is Ok <==> deposit >= cost_spec(
            n as nat,
            storage_byte_cost as nat,
            extra_bytes_per_token as nat,
        ),
        r matches Err(e) ==> e == ContractError::NotEnoughDeposit,
{
    let cost = cost_for(n, storage_byte_cost, extra_bytes_per_token);
    if deposit >= cost {
        Ok(())
    } else {
        Err(ContractError::NotEnoughDeposit)
    }
}

/// What to give back of `deposit_for_storage` once the storage used between
/// `init_storage_usage` and `current_storage_usage` is paid: `None` where
/// at most one yoctoNEAR is left, as such a refund is not worth a transfer.
pub fn refund_storage_deposit(
    init_storage_usage: u64,
    current_storage_usage: u64,
    storage_byte_cost: u128,
    deposit_for_storage: u128,
) -> (r: Result<Option<u128>, ContractError>)
    requires
        init_storage_usage <= current_storage_usage,
        storage_byte_cost * (current_storage_usage - init_storage_usage) <= u128::MAX,
    ensures
        ({
            let cost = storage_byte_cost * (current_storage_usage - init_storage_usage);
            &&& cost > deposit_for_storage ==> r == Err::<Option<u128>, ContractError>(
                ContractError::NotEnoughStorageDeposit,
            )
            &&& cost <= deposit_for_storage && deposit_for_storage - cost > 1 ==> r == Ok::<
                Option<u128>,
                ContractError,
            >(Some((deposit_for_storage - cost) as u128))
            &&& cost <= deposit_for_storage && deposit_for_storage - cost <= 1 ==> r == Ok::<
                Option<u128>,
                ContractError,
            >(None)
        }),
{
    let storage_cost = storage_byte_cost * ((current_storage_usage - init_storage_usage) as u128);
    if storage_cost > deposit_for_storage {
        return Err(ContractError::NotEnoughStorageDeposit);
    }
    let refund = deposit_for_storage - storage_cost;
    if refund > 1 {
        Ok(Some(refund))
    } else {
        Ok(None)
    }
}

} // verus!
