use prediction_markets::{
    AccountId, Asset, Config, Error, LocalChain, MarketCreation, MarketEnd, MarketStatus, Module,
    Time, Trait,
};

fn party(n: u8) -> AccountId {
    AccountId([n; 32])
}

fn rules() -> Config {
    Config {
        module_id: *b"zge/pred",
        penalty_sink: party(99),
        advisory_bond: 50,
        validity_bond: 200,
        oracle_bond: 100,
        dispute_bond: 25,
        dispute_factor: 10,
        max_disputes: 6,
        max_categories: 8,
        reporting_period: 5,
        dispute_period: 10,
    }
}

fn time(block: u64) -> Time {
    Time { block, moment: block * 6000 }
}

fn setup(accounts: &[u8]) -> Module<LocalChain> {
    let mut chain = LocalChain::new();
    for n in accounts {
        chain.deposit(&party(*n), 1_000);
    }
    Module::new(rules(), chain).unwrap()
}

fn permissionless(m: &mut Module<LocalChain>, categories: u16) -> u128 {
    m.create_categorical_market(
        party(1),
        party(2),
        MarketEnd::Block(100),
        vec![],
        MarketCreation::Permissionless,
        categories,
        time(1),
    )
    .unwrap()
}

fn outcome_share(id: u128, outcome: u16) -> Asset {
    Asset::PredictionMarketShare(id, outcome)
}

#[test]
fn the_pool_is_divided_evenly_and_the_remainder_is_dropped() {
    let mut m = setup(&[1, 3, 4, 5, 6, 7]);
    let id = permissionless(&mut m, 2);
    assert_eq!(m.report(party(2), id, 0, time(100)), Ok(()));
    assert_eq!(m.dispute(party(3), id, 1, time(101)), Ok(())); // bond 25, right
    assert_eq!(m.dispute(party(4), id, 0, time(101)), Ok(())); // bond 35, wrong
    assert_eq!(m.dispute(party(5), id, 1, time(102)), Ok(())); // bond 45, right
    assert_eq!(m.dispute(party(6), id, 0, time(102)), Ok(())); // bond 55, wrong
    assert_eq!(m.dispute(party(7), id, 1, time(103)), Ok(())); // bond 65, right
    assert_eq!(m.internal_resolve(id), 1);

    let market = m.market_by_id(id).unwrap();
    assert_eq!(market.status, MarketStatus::Resolved);
    assert_eq!(market.resolved_outcome, Some(1));
    // The report was wrong: pool = 100 + 35 + 55 = 190, three were right,
    // each receives 63 and one unit is dropped.
    assert_eq!(m.env().balance(&party(1)), 1_000 - 100);
    assert_eq!(m.env().balance(&party(3)), 1_000 + 63);
    assert_eq!(m.env().balance(&party(5)), 1_000 + 63);
    assert_eq!(m.env().balance(&party(7)), 1_000 + 63);
    assert_eq!(m.env().balance(&party(4)), 1_000 - 35);
    assert_eq!(m.env().balance(&party(6)), 1_000 - 55);
    for n in [1u8, 3, 4, 5, 6, 7] {
        assert_eq!(m.env().held_balance(&party(n)), 0);
    }
    let total: u128 = [1u8, 3, 4, 5, 6, 7].iter().map(|n| m.env().balance(&party(*n))).sum();
    assert_eq!(total, 6_000 - 1);
}

#[test]
fn one_disputer_who_is_right_twice_is_paid_twice() {
    let mut m = setup(&[1, 3, 4]);
    let id = permissionless(&mut m, 2);
    assert_eq!(m.report(party(2), id, 0, time(100)), Ok(()));
    assert_eq!(m.dispute(party(3), id, 1, time(101)), Ok(())); // 25
    assert_eq!(m.dispute(party(4), id, 0, time(101)), Ok(())); // 35
    assert_eq!(m.dispute(party(3), id, 1, time(102)), Ok(())); // 45
    assert_eq!(m.internal_resolve(id), 1);
    // pool = 100 + 35 = 135, two shares of 67 each.
    assert_eq!(m.env().balance(&party(3)), 1_000 + 67 + 67);
    assert_eq!(m.env().balance(&party(4)), 1_000 - 35);
}

#[test]
fn resolution_releases_no_more_than_is_in_escrow() {
    // An advised market escrows the advisory and the oracle bond, and gets
    // the advisory bond back at its approval. Its resolution asks for the
    // validity bond and the oracle bond; only the oracle bond is there.
    let mut m = setup(&[1]);
    let id = m
        .create_categorical_market(
            party(1),
            party(2),
            MarketEnd::Block(100),
            vec![],
            MarketCreation::Advised,
            2,
            time(1),
        )
        .unwrap();
    assert_eq!(m.env().held_balance(&party(1)), 150);
    assert_eq!(m.approve_market(true, id), Ok(()));
    assert_eq!(m.env().held_balance(&party(1)), 100);
    assert_eq!(m.report(party(3), id, 0, time(106)), Ok(()));
    assert_eq!(m.internal_resolve(id), 0);
    // The release of the validity bond took the 100 that were held; the
    // forfeit of the oracle bond found nothing.
    assert_eq!(m.env().held_balance(&party(1)), 0);
    assert_eq!(m.env().balance(&party(1)), 1_000);
    assert_eq!(m.env().balance(&party(3)), 0);
}

#[test]
fn the_tick_does_nothing_until_the_dispute_period_has_passed() {
    let mut config = rules();
    config.dispute_period = 10;
    let mut chain = LocalChain::new();
    chain.deposit(&party(1), 1_000);
    let mut m = Module::new(config, chain).unwrap();
    let id = m
        .create_categorical_market(
            party(1),
            party(2),
            MarketEnd::Block(1),
            vec![],
            MarketCreation::Permissionless,
            2,
            time(0),
        )
        .unwrap();
    assert_eq!(m.report(party(2), id, 0, time(1)), Ok(()));
    for now in 0..=10 {
        m.on_finalize(now);
    }
    assert_eq!(m.market_by_id(id).unwrap().status, MarketStatus::Reported);
    assert_eq!(m.market_ids_per_report_block(1), vec![id]);
    m.on_finalize(11);
    assert_eq!(m.market_by_id(id).unwrap().status, MarketStatus::Resolved);
}

#[test]
fn the_tick_resolves_every_market_of_the_bucket_and_passes_over_the_rest() {
    let mut chain = LocalChain::new();
    chain.deposit(&party(1), 1_500);
    chain.deposit(&party(3), 1_000);
    let mut m = Module::new(rules(), chain).unwrap();
    let first = permissionless(&mut m, 2);
    let second = permissionless(&mut m, 2);
    let disputed = permissionless(&mut m, 2);
    let rejected = permissionless(&mut m, 2);
    let later = permissionless(&mut m, 2);
    assert_eq!(m.env().held_balance(&party(1)), 1_500);
    for id in [first, second, disputed, rejected] {
        assert_eq!(m.report(party(2), id, 1, time(100)), Ok(()));
    }
    assert_eq!(m.report(party(2), later, 1, time(101)), Ok(()));
    assert_eq!(m.dispute(party(3), disputed, 0, time(105)), Ok(()));
    assert_eq!(m.reject_market(true, rejected), Ok(()));

    m.on_finalize(110);
    assert_eq!(m.market_by_id(first).unwrap().status, MarketStatus::Resolved);
    assert_eq!(m.market_by_id(second).unwrap().status, MarketStatus::Resolved);
    assert_eq!(m.market_by_id(disputed).unwrap().status, MarketStatus::Disputed);
    assert!(m.market_by_id(rejected).is_err());
    assert_eq!(m.market_by_id(later).unwrap().status, MarketStatus::Reported);
    assert_eq!(m.market_ids_per_report_block(100), Vec::<u128>::new());
    assert_eq!(m.market_ids_per_report_block(101), vec![later]);

    m.on_finalize(111);
    assert_eq!(m.market_by_id(later).unwrap().status, MarketStatus::Resolved);
    m.on_finalize(115);
    assert_eq!(m.market_by_id(disputed).unwrap().status, MarketStatus::Resolved);
    assert_eq!(m.market_by_id(disputed).unwrap().resolved_outcome, Some(0));
    assert_eq!(m.market_ids_per_dispute_block(105), Vec::<u128>::new());
}

#[test]
fn resolving_by_hand_needs_a_report() {
    let mut m = setup(&[1, 3]);
    let id = permissionless(&mut m, 2);
    assert_eq!(m.admin_move_market_to_resolved(false, id), Err(Error::NotAuthorized));
    assert_eq!(m.admin_move_market_to_resolved(true, 9), Err(Error::MarketNotFound));
    assert_eq!(
        m.admin_move_market_to_resolved(true, id),
        Err(Error::NotReportedNorDisputed)
    );
    assert_eq!(m.report(party(2), id, 1, time(100)), Ok(()));
    assert_eq!(m.dispute(party(3), id, 0, time(101)), Ok(()));
    assert_eq!(m.admin_move_market_to_resolved(true, id), Ok(()));
    let market = m.market_by_id(id).unwrap();
    assert_eq!(market.status, MarketStatus::Resolved);
    assert_eq!(market.resolved_outcome, Some(0));
    assert_eq!(m.market_ids_per_report_block(100), Vec::<u128>::new());
    assert_eq!(m.market_ids_per_dispute_block(101), Vec::<u128>::new());
    assert_eq!(
        m.admin_move_market_to_resolved(true, id),
        Err(Error::NotReportedNorDisputed)
    );
    // The creator lost the oracle bond to the disputer only once.
    assert_eq!(m.env().balance(&party(1)), 900);
    assert_eq!(m.env().balance(&party(3)), 1_100);
}

#[test]
fn redeeming_pays_one_unit_for_each_winning_share() {
    let mut m = setup(&[1, 3, 4]);
    let id = permissionless(&mut m, 3);
    assert_eq!(m.buy_complete_set(party(3), id, 60, time(2)), Ok(()));
    assert_eq!(m.buy_complete_set(party(4), id, 40, time(2)), Ok(()));
    assert_eq!(m.redeem_shares(party(3), 9), Err(Error::MarketNotFound));
    assert_eq!(m.redeem_shares(party(3), id), Err(Error::MarketNotResolved));
    assert_eq!(m.report(party(2), id, 2, time(100)), Ok(()));
    assert_eq!(m.redeem_shares(party(3), id), Err(Error::MarketNotResolved));
    m.on_finalize(110);

    assert_eq!(m.env().total_issuance(outcome_share(id, 0)), 0);
    assert_eq!(m.env().total_issuance(outcome_share(id, 1)), 0);
    assert_eq!(m.env().total_issuance(outcome_share(id, 2)), 100);
    assert_eq!(m.env().balance(&m.market_account(id)), 100);

    assert_eq!(m.redeem_shares(party(3), id), Ok(()));
    assert_eq!(m.env().balance(&party(3)), 1_000);
    assert_eq!(m.env().total_issuance(outcome_share(id, 2)), 40);
    assert_eq!(m.env().balance(&m.market_account(id)), 40);
    // Redeeming again finds nothing to pay.
    assert_eq!(m.redeem_shares(party(3), id), Ok(()));
    assert_eq!(m.env().balance(&party(3)), 1_000);
    // Someone without shares receives nothing.
    assert_eq!(m.redeem_shares(party(1), id), Ok(()));
    assert_eq!(m.env().balance(&party(1)), 1_000);
    assert_eq!(m.redeem_shares(party(4), id), Ok(()));
    assert_eq!(m.env().balance(&party(4)), 1_000);
    assert_eq!(m.env().balance(&m.market_account(id)), 0);
}

#[test]
fn redeeming_more_than_the_custodial_account_holds_is_refused() {
    let mut chain = LocalChain::new();
    chain.deposit(&party(1), 1_000);
    chain.deposit(&party(3), 1_000);
    assert!(chain.mint(outcome_share(0, 1), &party(4), 11).is_ok());
    let mut m = Module::new(rules(), chain).unwrap();
    let id = permissionless(&mut m, 2);
    assert_eq!(m.buy_complete_set(party(3), id, 10, time(2)), Ok(()));
    assert_eq!(m.report(party(2), id, 1, time(100)), Ok(()));
    m.on_finalize(110);
    assert_eq!(
        m.redeem_shares(party(4), id),
        Err(Error::InsufficientFundsInMarketAccount)
    );
    assert_eq!(m.env().share_balance(outcome_share(id, 1), &party(4)), 11);
    assert_eq!(m.env().balance(&m.market_account(id)), 10);
    assert_eq!(m.redeem_shares(party(3), id), Ok(()));
    assert_eq!(m.env().balance(&party(3)), 1_000);
}

#[test]
fn a_report_of_no_listed_outcome_destroys_every_share() {
    let mut m = setup(&[1, 3]);
    let id = permissionless(&mut m, 2);
    assert_eq!(m.buy_complete_set(party(3), id, 10, time(2)), Ok(()));
    assert_eq!(m.report(party(2), id, 2, time(100)), Ok(()));
    m.on_finalize(110);
    assert_eq!(m.market_by_id(id).unwrap().resolved_outcome, Some(2));
    assert_eq!(m.env().total_issuance(outcome_share(id, 0)), 0);
    assert_eq!(m.env().total_issuance(outcome_share(id, 1)), 0);
    assert_eq!(m.redeem_shares(party(3), id), Ok(()));
    assert_eq!(m.env().balance(&party(3)), 990);
}

#[test]
fn every_market_stays_backed_through_its_life() {
    let mut m = setup(&[1, 3, 4]);
    let id = permissionless(&mut m, 2);
    // Until the market is resolved every outcome counts, afterwards the
    // winning one.
    let backed = |m: &Module<LocalChain>| {
        let cash = m.env().balance(&m.market_account(id));
        let winner = m.market_by_id(id).unwrap().resolved_outcome;
        (0..2u16)
            .filter(|outcome| winner.is_none() || winner == Some(*outcome))
            .all(|outcome| cash >= m.env().total_issuance(outcome_share(id, outcome)))
    };
    assert!(backed(&m));
    assert_eq!(m.buy_complete_set(party(3), id, 70, time(2)), Ok(()));
    assert!(backed(&m));
    assert_eq!(m.buy_complete_set(party(4), id, 30, time(3)), Ok(()));
    assert!(backed(&m));
    assert_eq!(m.sell_complete_set(party(3), id, 20, time(4)), Ok(()));
    assert!(backed(&m));
    assert_eq!(m.env().balance(&m.market_account(id)), 80);
    assert_eq!(m.report(party(2), id, 0, time(100)), Ok(()));
    assert_eq!(m.dispute(party(4), id, 1, time(101)), Ok(()));
    assert!(backed(&m));
    m.on_finalize(111);
    assert!(backed(&m));
    assert_eq!(m.env().total_issuance(outcome_share(id, 1)), 80);
    assert_eq!(m.redeem_shares(party(4), id), Ok(()));
    assert!(backed(&m));
    assert_eq!(m.env().balance(&m.market_account(id)), 50);
    assert_eq!(m.env().total_issuance(outcome_share(id, 1)), 50);
}

#[test]
fn the_bonds_of_a_market_add_up_at_every_step() {
    // Escrowed so far = still held + released + forfeited, for one market
    // and the accounts that deal with it only.
    let mut m = setup(&[1, 3, 4]);
    let held = |m: &Module<LocalChain>| -> u128 {
        [1u8, 3, 4].iter().map(|n| m.env().held_balance(&party(*n))).sum()
    };
    let id = permissionless(&mut m, 2);
    assert_eq!(held(&m), 300);
    assert_eq!(m.report(party(2), id, 0, time(100)), Ok(()));
    assert_eq!(m.dispute(party(3), id, 1, time(101)), Ok(()));
    assert_eq!(held(&m), 325);
    assert_eq!(m.dispute(party(4), id, 0, time(102)), Ok(()));
    assert_eq!(held(&m), 360);
    m.on_finalize(112);
    assert_eq!(held(&m), 0);
    // Released: 200 + 100 to the creator, 35 to the second disputer.
    // Forfeited: 25, paid to the second disputer.
    assert_eq!(m.env().balance(&party(1)), 1_000);
    assert_eq!(m.env().balance(&party(3)), 975);
    assert_eq!(m.env().balance(&party(4)), 1_025);
}

#[test]
fn a_market_has_at_most_one_pool() {
    let mut m = setup(&[1, 3]);
    let id = permissionless(&mut m, 2);
    let advised = m
        .create_categorical_market(
            party(1),
            party(2),
            MarketEnd::Block(100),
            vec![],
            MarketCreation::Advised,
            2,
            time(1),
        )
        .unwrap();
    assert_eq!(m.market_to_swap_pool(id), None);
    assert_eq!(
        m.deploy_swap_pool_for_market(party(3), 9, vec![1, 1, 1]),
        Err(Error::MarketNotFound)
    );
    assert_eq!(
        m.deploy_swap_pool_for_market(party(3), advised, vec![1, 1, 1]),
        Err(Error::MarketNotActive)
    );
    // One weight for the currency and one for each outcome.
    assert_eq!(
        m.deploy_swap_pool_for_market(party(3), id, vec![1, 1]),
        Err(Error::PoolRefused)
    );
    assert_eq!(m.market_to_swap_pool(id), None);
    assert_eq!(m.deploy_swap_pool_for_market(party(3), id, vec![2, 1, 1]), Ok(0));
    assert_eq!(m.market_to_swap_pool(id), Some(0));
    assert_eq!(m.env().pool_count(), 1);
    assert_eq!(
        m.deploy_swap_pool_for_market(party(3), id, vec![2, 1, 1]),
        Err(Error::SwapPoolExists)
    );
    assert_eq!(m.approve_market(true, advised), Ok(()));
    assert_eq!(m.deploy_swap_pool_for_market(party(3), advised, vec![2, 1, 1]), Ok(1));
    assert_eq!(m.market_to_swap_pool(advised), Some(1));
}
