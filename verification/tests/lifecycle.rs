use prediction_markets::{
    remove_item, AccountId, Asset, Config, Error, LocalChain, MarketCreation, MarketEnd,
    MarketStatus, Module, Time, Trait,
};

fn acct(n: u8) -> AccountId {
    AccountId([n; 32])
}

fn settings() -> Config {
    Config {
        module_id: *b"zge/pred",
        penalty_sink: acct(99),
        advisory_bond: 50,
        validity_bond: 200,
        oracle_bond: 100,
        dispute_bond: 25,
        dispute_factor: 10,
        max_disputes: 6,
        max_categories: 8,
        reporting_period: 5,
        dispute_period: 10,
    }
}

fn block(n: u64) -> Time {
    Time { block: n, moment: n * 6000 }
}

fn start(accounts: &[u8]) -> Module<LocalChain> {
    let mut chain = LocalChain::new();
    for n in accounts {
        chain.deposit(&acct(*n), 1_000);
    }
    Module::new(settings(), chain).unwrap()
}

fn market(m: &mut Module<LocalChain>, categories: u16) -> u128 {
    m.create_categorical_market(
        acct(1),
        acct(2),
        MarketEnd::Block(100),
        vec![],
        MarketCreation::Permissionless,
        categories,
        block(1),
    )
    .unwrap()
}

fn share(id: u128, outcome: u16) -> Asset {
    Asset::PredictionMarketShare(id, outcome)
}

#[test]
fn remove_item_moves_the_last_entry_into_the_gap() {
    let mut items = vec![5u128, 6, 7, 6, 8];
    assert!(remove_item(&mut items, 6));
    assert_eq!(items, vec![5, 8, 7, 6]);
    assert!(!remove_item(&mut items, 9));
    assert_eq!(items, vec![5, 8, 7, 6]);
    assert!(remove_item(&mut items, 6));
    assert_eq!(items, vec![5, 8, 7]);
    let mut one = vec![1u128];
    assert!(remove_item(&mut one, 1));
    assert!(one.is_empty());
    assert!(!remove_item(&mut one, 1));
}

#[test]
fn is_market_active_is_strictly_before_the_end() {
    let at = Time { block: 10, moment: 700 };
    assert!(Module::<LocalChain>::is_market_active(MarketEnd::Block(11), at));
    assert!(!Module::<LocalChain>::is_market_active(MarketEnd::Block(10), at));
    assert!(Module::<LocalChain>::is_market_active(MarketEnd::Timestamp(701), at));
    assert!(!Module::<LocalChain>::is_market_active(MarketEnd::Timestamp(700), at));
    assert!(!Module::<LocalChain>::is_market_active(MarketEnd::Timestamp(11), at));
}

#[test]
fn buying_checks_the_balance_before_the_market() {
    let mut m = start(&[1, 3]);
    assert_eq!(m.buy_complete_set(acct(3), 0, 1_001, block(2)), Err(Error::InsufficientFunds));
    assert_eq!(m.buy_complete_set(acct(3), 0, 1_000, block(2)), Err(Error::MarketNotFound));
    let id = market(&mut m, 2);
    assert_eq!(m.buy_complete_set(acct(3), id, 1_001, block(2)), Err(Error::InsufficientFunds));
    assert_eq!(m.buy_complete_set(acct(3), id, 10, block(100)), Err(Error::MarketNotActive));
    assert_eq!(m.env().balance(&acct(3)), 1_000);
    assert_eq!(m.do_buy_complete_set(acct(3), id, 10, block(99)), Ok(()));
    assert_eq!(m.env().balance(&acct(3)), 990);
    assert_eq!(m.env().total_issuance(share(id, 0)), 10);
    assert_eq!(m.env().total_issuance(share(id, 1)), 10);
    assert_eq!(m.env().total_issuance(share(id, 2)), 0);
}

#[test]
fn a_purchase_that_cannot_be_completed_changes_nothing() {
    let mut chain = LocalChain::new();
    chain.deposit(&acct(1), 1_000);
    chain.deposit(&acct(3), 1_000);
    assert!(chain.mint(share(0, 1), &acct(3), u128::MAX).is_ok());
    assert!(chain.can_mint(share(0, 0), &acct(3), 5));
    assert!(!chain.can_mint(share(0, 1), &acct(3), 5));
    let mut m = Module::new(settings(), chain).unwrap();
    let id = market(&mut m, 3);
    assert_eq!(id, 0);
    // The share of the second outcome has no room: the first refusal is
    // named, and neither the payment nor any share has moved.
    assert_eq!(m.buy_complete_set(acct(3), id, 5, block(2)), Err(Error::MintRefused(1)));
    assert_eq!(m.do_buy_complete_set(acct(3), id, 5, block(2)), Err(Error::MintRefused(1)));
    assert_eq!(m.env().balance(&acct(3)), 1_000);
    assert_eq!(m.env().balance(&m.market_account(id)), 0);
    assert_eq!(m.env().share_balance(share(id, 0), &acct(3)), 0);
    assert_eq!(m.env().total_issuance(share(id, 0)), 0);
    assert_eq!(m.env().share_balance(share(id, 1), &acct(3)), u128::MAX);
    assert_eq!(m.env().share_balance(share(id, 2), &acct(3)), 0);
    // Another buyer has room for every outcome but the second, whose
    // outstanding amount is full.
    assert_eq!(m.buy_complete_set(acct(1), id, 5, block(2)), Err(Error::MintRefused(1)));
    assert_eq!(m.env().balance(&acct(1)), 700);
    // The errors of the purchase itself come first.
    assert_eq!(m.buy_complete_set(acct(3), id, 5, block(100)), Err(Error::MarketNotActive));
    assert_eq!(m.buy_complete_set(acct(3), id, 1_001, block(2)), Err(Error::InsufficientFunds));
}

#[test]
fn a_purchase_with_funds_on_an_open_market_succeeds() {
    let mut m = start(&[1, 3]);
    let id = market(&mut m, 2);
    assert_eq!(m.do_buy_complete_set(acct(3), id, 100, block(1)), Ok(()));
    assert_eq!(m.env().balance(&acct(3)), 900);
    assert_eq!(m.env().balance(&m.market_account(id)), 100);
    assert_eq!(m.env().share_balance(share(id, 0), &acct(3)), 100);
    assert_eq!(m.env().share_balance(share(id, 1), &acct(3)), 100);
    // An end given as a timestamp is held against the timestamp, whatever
    // the block.
    let stamped = m
        .create_categorical_market(
            acct(1),
            acct(2),
            MarketEnd::Timestamp(1_000),
            vec![],
            MarketCreation::Permissionless,
            2,
            Time { block: 1, moment: 1 },
        )
        .unwrap();
    let before_end = Time { block: 2_000, moment: 999 };
    assert_eq!(m.do_buy_complete_set(acct(3), stamped, 50, before_end), Ok(()));
    assert_eq!(m.env().balance(&acct(3)), 850);
    assert_eq!(m.env().share_balance(share(stamped, 0), &acct(3)), 50);
    assert_eq!(m.env().share_balance(share(stamped, 1), &acct(3)), 50);
    let at_end = Time { block: 1, moment: 1_000 };
    assert_eq!(
        m.do_buy_complete_set(acct(3), stamped, 50, at_end),
        Err(Error::MarketNotActive)
    );
}

#[test]
fn buying_and_selling_at_once_changes_nothing() {
    let mut m = start(&[1, 3]);
    let id = market(&mut m, 4);
    assert_eq!(m.buy_complete_set(acct(3), id, 30, block(2)), Ok(()));
    let before: Vec<u128> =
        (0..4).map(|o| m.env().share_balance(share(id, o), &acct(3))).collect();
    assert_eq!(before, vec![30, 30, 30, 30]);

    assert_eq!(m.buy_complete_set(acct(3), id, 70, block(3)), Ok(()));
    assert_eq!(m.env().balance(&acct(3)), 900);
    assert_eq!(m.env().balance(&m.market_account(id)), 100);
    assert_eq!(m.sell_complete_set(acct(3), id, 70, block(3)), Ok(()));

    assert_eq!(m.env().balance(&acct(3)), 970);
    assert_eq!(m.env().balance(&m.market_account(id)), 30);
    for outcome in 0..4 {
        assert_eq!(m.env().share_balance(share(id, outcome), &acct(3)), 30);
        assert_eq!(m.env().total_issuance(share(id, outcome)), 30);
    }
}

#[test]
fn selling_is_all_or_nothing() {
    let mut m = start(&[1, 3]);
    let id = market(&mut m, 3);
    assert_eq!(m.sell_complete_set(acct(3), 9, 1, block(2)), Err(Error::MarketNotFound));
    assert_eq!(m.buy_complete_set(acct(3), id, 50, block(2)), Ok(()));
    // Give away part of the last outcome.
    let mut m = {
        let mut chain = LocalChain::new();
        chain.deposit(&acct(1), 1_000);
        chain.deposit(&acct(3), 1_000);
        let mut fresh = Module::new(settings(), chain).unwrap();
        let id = market(&mut fresh, 3);
        assert_eq!(fresh.buy_complete_set(acct(3), id, 50, block(2)), Ok(()));
        fresh
    };
    assert_eq!(
        m.sell_complete_set(acct(3), id, 51, block(3)),
        Err(Error::InsufficientFundsInMarketAccount)
    );
    assert_eq!(m.buy_complete_set(acct(1), id, 10, block(3)), Ok(()));
    assert_eq!(
        m.sell_complete_set(acct(3), id, 51, block(3)),
        Err(Error::InsufficientShareBalance)
    );
    assert_eq!(
        m.sell_complete_set(acct(3), id, 10, block(100)),
        Err(Error::MarketNotActive)
    );
    for outcome in 0..3 {
        assert_eq!(m.env().share_balance(share(id, outcome), &acct(3)), 50);
    }
    assert_eq!(m.env().balance(&m.market_account(id)), 60);
    assert_eq!(m.sell_complete_set(acct(3), id, 50, block(99)), Ok(()));
    assert_eq!(m.env().balance(&acct(3)), 1_000);
    assert_eq!(m.env().balance(&m.market_account(id)), 10);
}

#[test]
fn a_missing_outcome_share_stops_the_sale_before_any_burn() {
    let mut chain = LocalChain::new();
    chain.deposit(&acct(1), 1_000);
    chain.deposit(&acct(3), 1_000);
    // Shares of the first two outcomes only, and currency in the custodial
    // account from another buyer.
    assert!(chain.mint(share(0, 0), &acct(4), 20).is_ok());
    assert!(chain.mint(share(0, 1), &acct(4), 20).is_ok());
    let mut m = Module::new(settings(), chain).unwrap();
    let id = market(&mut m, 3);
    assert_eq!(m.buy_complete_set(acct(3), id, 20, block(2)), Ok(()));
    assert_eq!(
        m.sell_complete_set(acct(4), id, 20, block(3)),
        Err(Error::InsufficientShareBalance)
    );
    assert_eq!(m.env().share_balance(share(id, 0), &acct(4)), 20);
    assert_eq!(m.env().share_balance(share(id, 1), &acct(4)), 20);
    assert_eq!(m.env().balance(&acct(4)), 0);
    assert_eq!(m.env().balance(&m.market_account(id)), 20);
}

#[test]
fn report_checks_outcome_report_status_and_time_in_this_order() {
    let mut m = start(&[1]);
    assert_eq!(m.report(acct(2), 0, 0, block(200)), Err(Error::MarketNotFound));
    let id = market(&mut m, 2);
    assert_eq!(m.report(acct(2), id, 3, block(50)), Err(Error::OutcomeOutOfRange));
    assert_eq!(m.report(acct(2), id, 0, block(50)), Err(Error::MarketNotClosed));
    assert_eq!(m.report(acct(3), id, 0, block(50)), Err(Error::MarketNotClosed));
    assert_eq!(m.report(acct(3), id, 0, block(100)), Err(Error::NotOracle));
    // An outcome equal to the number of categories is accepted.
    assert_eq!(m.report(acct(2), id, 2, block(100)), Ok(()));
    assert_eq!(m.report(acct(2), id, 3, block(101)), Err(Error::OutcomeOutOfRange));
    assert_eq!(m.report(acct(2), id, 1, block(101)), Err(Error::AlreadyReported));
    let report = m.market_by_id(id).unwrap().report.unwrap();
    assert_eq!((report.at, report.by, report.outcome), (100, acct(2), 2));
    assert_eq!(m.market_ids_per_report_block(100), vec![id]);
}

#[test]
fn a_market_that_waits_for_approval_cannot_be_reported() {
    let mut m = start(&[1]);
    let id = m
        .create_categorical_market(
            acct(1),
            acct(2),
            MarketEnd::Block(100),
            vec![],
            MarketCreation::Advised,
            2,
            block(1),
        )
        .unwrap();
    assert_eq!(m.report(acct(2), id, 0, block(100)), Err(Error::MarketNotActive));
    assert_eq!(m.approve_market(true, id), Ok(()));
    assert_eq!(m.report(acct(2), id, 0, block(100)), Ok(()));
}

#[test]
fn the_grace_period_of_a_timestamp_counts_blocks_in_milliseconds() {
    let mut m = start(&[1]);
    let id = m
        .create_categorical_market(
            acct(1),
            acct(2),
            MarketEnd::Timestamp(1_000_000),
            vec![],
            MarketCreation::Permissionless,
            2,
            Time { block: 1, moment: 1 },
        )
        .unwrap();
    let at = |moment: u64| Time { block: 7, moment };
    assert_eq!(m.report(acct(3), id, 0, at(999_999)), Err(Error::MarketNotClosed));
    assert_eq!(m.report(acct(3), id, 0, at(1_000_000)), Err(Error::NotOracle));
    // Five blocks of 6000 ms each.
    assert_eq!(m.report(acct(3), id, 0, at(1_030_000)), Err(Error::NotOracle));
    assert_eq!(m.report(acct(3), id, 0, at(1_030_001)), Ok(()));
    // The report is filed under the block, whatever the unit of the end.
    assert_eq!(m.market_by_id(id).unwrap().report.unwrap().at, 7);
    assert_eq!(m.market_ids_per_report_block(7), vec![id]);
}

#[test]
fn the_grace_period_does_not_overflow() {
    let mut config = settings();
    config.reporting_period = u64::MAX;
    let mut chain = LocalChain::new();
    chain.deposit(&acct(1), 1_000);
    let mut m = Module::new(config, chain).unwrap();
    let id = m
        .create_categorical_market(
            acct(1),
            acct(2),
            MarketEnd::Timestamp(u64::MAX),
            vec![],
            MarketCreation::Permissionless,
            2,
            Time { block: 1, moment: 1 },
        )
        .unwrap();
    let late = Time { block: u64::MAX, moment: u64::MAX };
    assert_eq!(m.report(acct(3), id, 0, late), Err(Error::NotOracle));
    assert_eq!(m.report(acct(2), id, 0, late), Ok(()));
}

#[test]
fn dispute_checks_in_order_and_escrows_a_growing_bond() {
    let mut m = start(&[1, 3, 4]);
    assert_eq!(m.dispute(acct(3), 0, 0, block(1)), Err(Error::MarketNotFound));
    let id = market(&mut m, 2);
    assert_eq!(m.dispute(acct(3), id, 5, block(1)), Err(Error::NotReported));
    assert_eq!(m.report(acct(2), id, 0, block(100)), Ok(()));
    assert_eq!(m.dispute(acct(3), id, 2, block(101)), Err(Error::OutcomeOutOfRange));
    // The first dispute may repeat the outcome of the report.
    assert_eq!(m.dispute(acct(3), id, 0, block(101)), Ok(()));
    assert_eq!(m.env().held_balance(&acct(3)), 25);
    assert_eq!(m.dispute(acct(4), id, 1, block(101)), Ok(()));
    assert_eq!(m.env().held_balance(&acct(4)), 35);
    assert_eq!(m.dispute(acct(3), id, 0, block(102)), Ok(()));
    assert_eq!(m.env().held_balance(&acct(3)), 25 + 45);
    assert_eq!(m.dispute(acct(4), id, 1, block(103)), Ok(()));
    assert_eq!(m.dispute(acct(3), id, 0, block(104)), Ok(()));
    assert_eq!(m.dispute(acct(4), id, 1, block(105)), Ok(()));
    assert_eq!(m.env().held_balance(&acct(4)), 35 + 55 + 75);
    assert_eq!(m.env().held_balance(&acct(3)), 25 + 45 + 65);
    assert_eq!(m.dispute(acct(3), id, 0, block(106)), Err(Error::TooManyDisputes));
    assert_eq!(m.dispute(acct(3), id, 1, block(106)), Err(Error::TooManyDisputes));

    let log = m.disputes(id);
    assert_eq!(log.len(), 6);
    for i in 1..log.len() {
        assert_ne!(log[i].outcome, log[i - 1].outcome);
    }
    assert_eq!((log[5].at, log[5].by, log[5].outcome), (105, acct(4), 1));
    assert_eq!(m.market_ids_per_dispute_block(105), vec![id]);
    for earlier in 101..105 {
        assert_eq!(m.market_ids_per_dispute_block(earlier), Vec::<u128>::new());
    }
    // The report index keeps the market where it was reported.
    assert_eq!(m.market_ids_per_report_block(100), vec![id]);
}

#[test]
fn a_dispute_without_funds_changes_nothing() {
    let mut chain = LocalChain::new();
    chain.deposit(&acct(1), 1_000);
    chain.deposit(&acct(3), 24);
    let mut m = Module::new(settings(), chain).unwrap();
    let id = market(&mut m, 2);
    assert_eq!(m.report(acct(2), id, 0, block(100)), Ok(()));
    assert_eq!(m.dispute(acct(3), id, 1, block(101)), Err(Error::InsufficientFunds));
    assert_eq!(m.market_by_id(id).unwrap().status, MarketStatus::Reported);
    assert_eq!(m.disputes(id).len(), 0);
    assert_eq!(m.market_ids_per_dispute_block(101), Vec::<u128>::new());
    assert_eq!(m.env().balance(&acct(3)), 24);
}

#[test]
fn a_resolved_market_cannot_be_disputed() {
    let mut m = start(&[1, 3]);
    let id = market(&mut m, 2);
    assert_eq!(m.report(acct(2), id, 0, block(100)), Ok(()));
    m.on_finalize(110);
    assert_eq!(m.market_by_id(id).unwrap().status, MarketStatus::Resolved);
    assert_eq!(m.dispute(acct(3), id, 1, block(111)), Err(Error::AlreadyResolved));
    assert_eq!(m.market_by_id(id).unwrap().status, MarketStatus::Resolved);
    assert_eq!(m.env().held_balance(&acct(3)), 0);
}

#[test]
fn closing_by_hand_ends_trading_now() {
    let mut m = start(&[1, 3]);
    let id = market(&mut m, 2);
    let stamped = m
        .create_categorical_market(
            acct(1),
            acct(2),
            MarketEnd::Timestamp(9_000_000),
            vec![],
            MarketCreation::Permissionless,
            2,
            block(1),
        )
        .unwrap();
    let at = Time { block: 20, moment: 120_500 };
    assert_eq!(m.admin_move_market_to_closed(false, id, at), Err(Error::NotAuthorized));
    assert_eq!(m.admin_move_market_to_closed(true, 9, at), Err(Error::MarketNotFound));
    assert_eq!(m.market_by_id(id).unwrap().end, MarketEnd::Block(100));
    assert_eq!(m.admin_move_market_to_closed(true, id, at), Ok(()));
    assert_eq!(m.admin_move_market_to_closed(true, stamped, at), Ok(()));
    assert_eq!(m.market_by_id(id).unwrap().end, MarketEnd::Block(20));
    assert_eq!(m.market_by_id(stamped).unwrap().end, MarketEnd::Timestamp(120_500));
    assert_eq!(m.market_by_id(id).unwrap().status, MarketStatus::Active);
    assert_eq!(m.buy_complete_set(acct(3), id, 1, at), Err(Error::MarketNotActive));
    assert_eq!(m.report(acct(2), id, 1, at), Ok(()));
}

#[test]
fn clear_auto_resolve_takes_a_market_off_both_indices() {
    let mut m = start(&[1, 3]);
    let id = market(&mut m, 2);
    let other = market(&mut m, 2);
    assert_eq!(m.clear_auto_resolve(7), Err(Error::MarketNotFound));
    assert_eq!(m.clear_auto_resolve(id), Ok(()));
    assert_eq!(m.report(acct(2), other, 0, block(100)), Ok(()));
    assert_eq!(m.report(acct(2), id, 0, block(100)), Ok(()));
    assert_eq!(m.dispute(acct(3), id, 1, block(101)), Ok(()));
    assert_eq!(m.clear_auto_resolve(id), Ok(()));
    assert_eq!(m.market_ids_per_report_block(100), vec![other]);
    assert_eq!(m.market_ids_per_dispute_block(101), Vec::<u128>::new());
    // Neither tick resolves it now.
    m.on_finalize(110);
    m.on_finalize(111);
    assert_eq!(m.market_by_id(id).unwrap().status, MarketStatus::Disputed);
    assert_eq!(m.market_by_id(other).unwrap().status, MarketStatus::Resolved);
}
