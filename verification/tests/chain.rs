use prediction_markets::{AccountId, Asset, LocalChain, Refused, Trait};

fn holder(n: u8) -> AccountId {
    AccountId([n; 32])
}

const SHARE: Asset = Asset::PredictionMarketShare(3, 1);
const OTHER: Asset = Asset::PredictionMarketShare(3, 2);

#[test]
fn accounts_are_equal_where_every_byte_is() {
    let mut bytes = [7u8; 32];
    assert_eq!(AccountId(bytes), holder(7));
    bytes[31] = 8;
    assert_ne!(AccountId(bytes), holder(7));
    bytes[31] = 7;
    bytes[0] = 0;
    assert_ne!(AccountId(bytes), holder(7));
}

#[test]
fn a_new_chain_is_empty() {
    let chain = LocalChain::new();
    assert_eq!(chain.balance(&holder(1)), 0);
    assert_eq!(chain.held_balance(&holder(1)), 0);
    assert_eq!(chain.share_balance(SHARE, &holder(1)), 0);
    assert_eq!(chain.total_issuance(SHARE), 0);
    assert_eq!(chain.pool_count(), 0);
}

#[test]
fn escrow_moves_free_currency_or_refuses() {
    let mut chain = LocalChain::new();
    chain.deposit(&holder(1), 100);
    assert_eq!(chain.escrow(&holder(1), 101), Err(Refused));
    assert_eq!(chain.balance(&holder(1)), 100);
    assert_eq!(chain.escrow(&holder(1), 60), Ok(()));
    assert_eq!(chain.balance(&holder(1)), 40);
    assert_eq!(chain.held_balance(&holder(1)), 60);
    assert_eq!(chain.escrow(&holder(1), 41), Err(Refused));
    assert_eq!(chain.escrow(&holder(1), 40), Ok(()));
    assert_eq!(chain.held_balance(&holder(1)), 100);
    assert_eq!(chain.balance(&holder(2)), 0);
}

#[test]
fn release_and_forfeit_move_no_more_than_is_held() {
    let mut chain = LocalChain::new();
    chain.deposit(&holder(1), 100);
    assert_eq!(chain.escrow(&holder(1), 50), Ok(()));
    chain.release(&holder(1), 20);
    assert_eq!((chain.balance(&holder(1)), chain.held_balance(&holder(1))), (70, 30));
    assert_eq!(chain.forfeit(&holder(1), 10), 10);
    assert_eq!((chain.balance(&holder(1)), chain.held_balance(&holder(1))), (70, 20));
    assert_eq!(chain.forfeit(&holder(1), 25), 20);
    assert_eq!(chain.held_balance(&holder(1)), 0);
    chain.release(&holder(1), 5);
    assert_eq!((chain.balance(&holder(1)), chain.held_balance(&holder(1))), (70, 0));
    assert_eq!(chain.forfeit(&holder(2), 5), 0);
}

#[test]
fn pay_credits_unless_the_balance_is_full() {
    let mut chain = LocalChain::new();
    chain.pay(&holder(1), u128::MAX - 1);
    chain.pay(&holder(1), 2);
    assert_eq!(chain.balance(&holder(1)), u128::MAX - 1);
    chain.pay(&holder(1), 1);
    assert_eq!(chain.balance(&holder(1)), u128::MAX);
}

#[test]
fn transfer_moves_free_currency_or_refuses() {
    let mut chain = LocalChain::new();
    chain.deposit(&holder(1), 100);
    chain.deposit(&holder(2), u128::MAX - 10);
    assert_eq!(chain.transfer(&holder(1), &holder(3), 101, true), Err(Refused));
    assert_eq!(chain.transfer(&holder(1), &holder(2), 11, true), Err(Refused));
    assert_eq!(chain.transfer(&holder(1), &holder(2), 10, false), Ok(()));
    assert_eq!(chain.balance(&holder(1)), 90);
    assert_eq!(chain.balance(&holder(2)), u128::MAX);
    assert_eq!(chain.transfer(&holder(1), &holder(1), 90, true), Ok(()));
    assert_eq!(chain.balance(&holder(1)), 90);
    assert_eq!(chain.transfer(&holder(1), &holder(1), 91, true), Err(Refused));
    assert_eq!(chain.transfer(&holder(1), &holder(3), 90, true), Ok(()));
    assert_eq!((chain.balance(&holder(1)), chain.balance(&holder(3))), (0, 90));
}

#[test]
fn shares_are_minted_burned_and_destroyed() {
    let mut chain = LocalChain::new();
    assert_eq!(chain.mint(SHARE, &holder(1), 30), Ok(()));
    assert_eq!(chain.mint(SHARE, &holder(2), 12), Ok(()));
    assert_eq!(chain.mint(OTHER, &holder(1), 5), Ok(()));
    assert_eq!(chain.total_issuance(SHARE), 42);
    assert!(!chain.can_mint(SHARE, &holder(3), u128::MAX - 41));
    assert_eq!(chain.mint(SHARE, &holder(3), u128::MAX - 41), Err(Refused));
    assert!(chain.can_mint(SHARE, &holder(3), u128::MAX - 42));
    assert_eq!(chain.total_issuance(SHARE), 42);

    chain.burn(SHARE, &holder(1), 10);
    assert_eq!(chain.share_balance(SHARE, &holder(1)), 20);
    assert_eq!(chain.total_issuance(SHARE), 32);
    chain.burn(SHARE, &holder(2), 50);
    assert_eq!(chain.share_balance(SHARE, &holder(2)), 0);
    assert_eq!(chain.total_issuance(SHARE), 20);

    assert_eq!(chain.mint(SHARE, &holder(2), 7), Ok(()));
    chain.destroy_all(SHARE);
    assert_eq!(chain.share_balance(SHARE, &holder(1)), 0);
    assert_eq!(chain.share_balance(SHARE, &holder(2)), 0);
    assert_eq!(chain.total_issuance(SHARE), 0);
    assert_eq!(chain.share_balance(OTHER, &holder(1)), 5);
    assert_eq!(chain.total_issuance(OTHER), 5);
    assert_eq!(chain.balance(&holder(1)), 0);
}

#[test]
fn pools_are_numbered_in_order() {
    let mut chain = LocalChain::new();
    assert_eq!(chain.create_pool(&holder(1), vec![Asset::Ztg, SHARE], 0, vec![1, 1]), Ok(0));
    assert_eq!(chain.create_pool(&holder(1), vec![Asset::Ztg, SHARE], 0, vec![1]), Err(Refused));
    assert_eq!(chain.create_pool(&holder(1), vec![Asset::Ztg], 0, vec![1]), Ok(1));
    assert_eq!(chain.pool_count(), 2);
}
