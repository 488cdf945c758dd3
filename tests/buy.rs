use nft_raffle::buy::{assert_deposit, cost_for, mint_cost_for, refund_storage_deposit, unit_price, ONE_NEAR};
use nft_raffle::error::ContractError;

#[test]
fn price_of_tokens() {
    assert_eq!(unit_price(), 1_000_000_000_000_000_000_000_000);
    assert_eq!(mint_cost_for(0), 0);
    assert_eq!(mint_cost_for(3), 3 * ONE_NEAR);
}

#[test]
fn cost_includes_storage() {
    let byte_cost: u128 = 10_000_000_000_000_000_000;
    assert_eq!(cost_for(0, byte_cost, 500), 0);
    assert_eq!(cost_for(2, byte_cost, 500), 2 * ONE_NEAR + 2 * 500 * byte_cost);
    assert_eq!(cost_for(5, byte_cost, 0), 5 * ONE_NEAR);
}

#[test]
fn deposit_must_cover_cost() {
    let cost = cost_for(2, 7, 100);
    assert_eq!(assert_deposit(2, cost, 7, 100), Ok(()));
    assert_eq!(assert_deposit(2, cost + 1, 7, 100), Ok(()));
    assert_eq!(assert_deposit(2, cost - 1, 7, 100), Err(ContractError::NotEnoughDeposit));
}

#[test]
fn storage_refund() {
    assert_eq!(refund_storage_deposit(100, 150, 10, 1_000), Ok(Some(500)));
    assert_eq!(refund_storage_deposit(100, 150, 10, 501), Ok(None));
    assert_eq!(refund_storage_deposit(100, 150, 10, 500), Ok(None));
    assert_eq!(refund_storage_deposit(100, 150, 10, 502), Ok(Some(2)));
    assert_eq!(
        refund_storage_deposit(100, 150, 10, 499),
        Err(ContractError::NotEnoughStorageDeposit)
    );
}
