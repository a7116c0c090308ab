use prediction_markets::{
    AccountId, Asset, Config, Error, LocalChain, MarketCreation, MarketEnd, MarketStatus, Module,
    Time, Trait,
};

const VALIDITY: u128 = 200;
const ORACLE: u128 = 100;
const ADVISORY: u128 = 50;
const DISPUTE: u128 = 25;
const FACTOR: u128 = 10;
const DISPUTE_PERIOD: u64 = 10;
const REPORTING_PERIOD: u64 = 5;

fn account(n: u8) -> AccountId {
    AccountId([n; 32])
}

fn config() -> Config {
    Config {
        module_id: *b"zge/pred",
        penalty_sink: account(99),
        advisory_bond: ADVISORY,
        validity_bond: VALIDITY,
        oracle_bond: ORACLE,
        dispute_bond: DISPUTE,
        dispute_factor: FACTOR,
        max_disputes: 6,
        max_categories: 8,
        reporting_period: REPORTING_PERIOD,
        dispute_period: DISPUTE_PERIOD,
    }
}

fn at(block: u64) -> Time {
    Time { block, moment: block * 6000 }
}

fn engine(funded: &[u8]) -> Module<LocalChain> {
    let mut chain = LocalChain::new();
    for n in funded {
        chain.deposit(&account(*n), 1_000);
    }
    Module::new(config(), chain).unwrap()
}

fn share(market: u128, outcome: u16) -> Asset {
    Asset::PredictionMarketShare(market, outcome)
}

const CREATOR: u8 = 1;
const ORACLE_ACCOUNT: u8 = 2;
const TRADER: u8 = 3;
const STRANGER: u8 = 4;
const SECOND: u8 = 5;

fn open_market(m: &mut Module<LocalChain>) -> u128 {
    m.create_categorical_market(
        account(CREATOR),
        account(ORACLE_ACCOUNT),
        MarketEnd::Block(100),
        vec![1, 2, 3],
        MarketCreation::Permissionless,
        2,
        at(1),
    )
    .unwrap()
}

#[test]
fn oracle_report_resolves_after_the_dispute_period() {
    let mut m = engine(&[CREATOR, TRADER]);
    let id = open_market(&mut m);
    assert_eq!(id, 0);
    assert_eq!(m.env().balance(&account(CREATOR)), 1_000 - VALIDITY - ORACLE);
    assert_eq!(m.env().held_balance(&account(CREATOR)), VALIDITY + ORACLE);
    assert_eq!(m.market_by_id(id).unwrap().status, MarketStatus::Active);

    assert_eq!(m.buy_complete_set(account(TRADER), id, 100, at(2)), Ok(()));
    assert_eq!(m.env().balance(&account(TRADER)), 900);
    assert_eq!(m.env().balance(&m.market_account(id)), 100);
    assert_eq!(m.env().share_balance(share(id, 0), &account(TRADER)), 100);
    assert_eq!(m.env().share_balance(share(id, 1), &account(TRADER)), 100);

    assert_eq!(m.report(account(ORACLE_ACCOUNT), id, 1, at(101)), Ok(()));
    assert_eq!(m.market_by_id(id).unwrap().status, MarketStatus::Reported);
    assert_eq!(m.market_ids_per_report_block(101), vec![id]);

    for block in 102..=110 {
        m.on_finalize(block);
        assert_eq!(m.market_by_id(id).unwrap().status, MarketStatus::Reported);
    }
    m.on_finalize(111);
    let market = m.market_by_id(id).unwrap();
    assert_eq!(market.status, MarketStatus::Resolved);
    assert_eq!(market.resolved_outcome, Some(1));
    assert_eq!(m.market_ids_per_report_block(101), Vec::<u128>::new());

    assert_eq!(m.env().balance(&account(CREATOR)), 1_000);
    assert_eq!(m.env().held_balance(&account(CREATOR)), 0);
    assert_eq!(m.env().share_balance(share(id, 0), &account(TRADER)), 0);
    assert_eq!(m.env().total_issuance(share(id, 0)), 0);
    assert_eq!(m.env().share_balance(share(id, 1), &account(TRADER)), 100);

    assert_eq!(m.redeem_shares(account(TRADER), id), Ok(()));
    assert_eq!(m.env().balance(&account(TRADER)), 1_000);
    assert_eq!(m.env().share_balance(share(id, 1), &account(TRADER)), 0);
    assert_eq!(m.env().balance(&m.market_account(id)), 0);
}

#[test]
fn stranger_reports_after_the_grace_period() {
    let mut m = engine(&[CREATOR, TRADER]);
    let id = open_market(&mut m);
    assert_eq!(m.buy_complete_set(account(TRADER), id, 100, at(2)), Ok(()));

    assert_eq!(
        m.report(account(STRANGER), id, 1, at(100 + REPORTING_PERIOD)),
        Err(Error::NotOracle)
    );
    assert_eq!(m.report(account(STRANGER), id, 1, at(100 + REPORTING_PERIOD + 1)), Ok(()));
    let report = m.market_by_id(id).unwrap().report.unwrap();
    assert_eq!(report.by, account(STRANGER));
    assert_eq!(report.at, 106);
    assert_eq!(report.outcome, 1);

    m.on_finalize(106 + DISPUTE_PERIOD);
    assert_eq!(m.market_by_id(id).unwrap().status, MarketStatus::Resolved);
    assert_eq!(m.market_by_id(id).unwrap().resolved_outcome, Some(1));
    assert_eq!(m.env().balance(&account(CREATOR)), 1_000 - ORACLE);
    assert_eq!(m.env().held_balance(&account(CREATOR)), 0);
    assert_eq!(m.env().balance(&account(STRANGER)), ORACLE);
}

#[test]
fn last_dispute_wins() {
    let mut m = engine(&[CREATOR, TRADER, STRANGER, SECOND]);
    let id = open_market(&mut m);
    assert_eq!(m.report(account(ORACLE_ACCOUNT), id, 0, at(101)), Ok(()));

    assert_eq!(m.dispute(account(STRANGER), id, 1, at(102)), Ok(()));
    assert_eq!(m.env().held_balance(&account(STRANGER)), DISPUTE);
    assert_eq!(m.market_by_id(id).unwrap().status, MarketStatus::Disputed);
    assert_eq!(m.market_ids_per_dispute_block(102), vec![id]);

    assert_eq!(m.dispute(account(SECOND), id, 0, at(104)), Ok(()));
    assert_eq!(m.env().held_balance(&account(SECOND)), DISPUTE + FACTOR);
    assert_eq!(m.market_ids_per_dispute_block(102), Vec::<u128>::new());
    assert_eq!(m.market_ids_per_dispute_block(104), vec![id]);

    m.on_finalize(101 + DISPUTE_PERIOD);
    assert_eq!(m.market_by_id(id).unwrap().status, MarketStatus::Disputed);
    m.on_finalize(102 + DISPUTE_PERIOD);
    assert_eq!(m.market_by_id(id).unwrap().status, MarketStatus::Disputed);
    m.on_finalize(104 + DISPUTE_PERIOD);
    let market = m.market_by_id(id).unwrap();
    assert_eq!(market.status, MarketStatus::Resolved);
    assert_eq!(market.resolved_outcome, Some(0));

    // The report was right: the oracle bond goes back to the creator.
    assert_eq!(m.env().balance(&account(CREATOR)), 1_000);
    assert_eq!(m.env().held_balance(&account(CREATOR)), 0);
    // The first dispute was wrong: its bond is forfeited.
    assert_eq!(m.env().balance(&account(STRANGER)), 1_000 - DISPUTE);
    assert_eq!(m.env().held_balance(&account(STRANGER)), 0);
    // The second was right: its bond comes back, with the whole pool.
    assert_eq!(m.env().balance(&account(SECOND)), 1_000 + DISPUTE);
    assert_eq!(m.env().held_balance(&account(SECOND)), 0);
}

#[test]
fn wrong_report_feeds_the_pool() {
    let mut m = engine(&[CREATOR, STRANGER]);
    let id = open_market(&mut m);
    assert_eq!(m.report(account(ORACLE_ACCOUNT), id, 0, at(101)), Ok(()));
    assert_eq!(m.dispute(account(STRANGER), id, 1, at(102)), Ok(()));
    m.on_finalize(102 + DISPUTE_PERIOD);
    assert_eq!(m.market_by_id(id).unwrap().resolved_outcome, Some(1));
    assert_eq!(m.env().balance(&account(CREATOR)), 1_000 - ORACLE);
    assert_eq!(m.env().balance(&account(STRANGER)), 1_000 + ORACLE);
}

#[test]
fn repeating_the_latest_outcome_is_rejected() {
    let mut m = engine(&[CREATOR, STRANGER, SECOND]);
    let id = open_market(&mut m);
    assert_eq!(m.report(account(ORACLE_ACCOUNT), id, 0, at(101)), Ok(()));
    assert_eq!(m.dispute(account(STRANGER), id, 1, at(102)), Ok(()));

    let log = m.disputes(id);
    assert_eq!(m.dispute(account(SECOND), id, 1, at(103)), Err(Error::DuplicateOutcome));
    assert_eq!(m.disputes(id), log);
    assert_eq!(m.env().balance(&account(SECOND)), 1_000);
    assert_eq!(m.env().held_balance(&account(SECOND)), 0);
    assert_eq!(m.market_ids_per_dispute_block(102), vec![id]);
    assert_eq!(m.market_ids_per_dispute_block(103), Vec::<u128>::new());

    // Only the latest dispute counts: the outcome of the report may return.
    assert_eq!(m.dispute(account(SECOND), id, 0, at(103)), Ok(()));
    assert_eq!(m.dispute(account(STRANGER), id, 1, at(103)), Ok(()));
    assert_eq!(m.disputes(id).len(), 3);
}

#[test]
fn early_report_and_dispute_without_report_are_rejected() {
    let mut m = engine(&[CREATOR, STRANGER]);
    let id = open_market(&mut m);
    assert_eq!(m.report(account(ORACLE_ACCOUNT), id, 1, at(99)), Err(Error::MarketNotClosed));
    assert!(m.market_by_id(id).unwrap().report.is_none());
    assert_eq!(m.market_by_id(id).unwrap().status, MarketStatus::Active);
    assert_eq!(m.dispute(account(STRANGER), id, 1, at(99)), Err(Error::NotReported));
    assert_eq!(m.env().held_balance(&account(STRANGER)), 0);
    assert_eq!(m.disputes(id).len(), 0);
    // The end itself is closed already.
    assert_eq!(m.report(account(ORACLE_ACCOUNT), id, 1, at(100)), Ok(()));
}
