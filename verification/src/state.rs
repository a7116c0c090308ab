//! The engine as the contracts speak of it, and what holds of it at all
//! times.

use crate::config::Config;
use crate::ledger::Ledgers;
use crate::market::{Market, MarketDispute, MarketStatus};
use vstd::prelude::*;

verus! {

/// One of the two scheduling indices.
#[derive(Clone, Copy, Debug, PartialEq, Eq, Structural)]
pub enum Window {
    /// Markets by the block of their report.
    Report,
    /// Markets by the block of their latest dispute.
    Dispute,
}

/// Everything the engine keeps, with the ledgers of the chain it runs on.
pub struct State {
    /// The constants of the engine.
    pub config: Config,
    /// The ledgers of the collaborators.
    pub ledgers: Ledgers,
    /// The market records by identifier.
    pub markets: Map<u128, Market>,
    /// The number of markets created so far, and the next identifier.
    pub market_count: u128,
    /// The dispute log of every identifier, empty where none was filed.
    pub disputes: Map<u128, Seq<MarketDispute>>,
    /// The markets reported at each block, empty where there are none.
    pub report_index: Map<u64, Seq<u128>>,
    /// The markets last disputed at each block, empty where there are none.
    pub dispute_index: Map<u64, Seq<u128>>,
    /// The pool of each market that has one.
    pub pools: Map<u128, u128>,
}

/// No two adjacent entries of a dispute log claim the same outcome.
pub open spec fn disputes_ordered(log: Seq<MarketDispute>) -> bool {
    forall|i: int| 0 < i < log.len() ==> (#[trigger] log[i]).outcome != log[i - 1].outcome
}

/// Whether `p` is the first position of `item` in `items`.
pub open spec fn is_first(items: Seq<u128>, item: u128, p: int) -> bool {
    &&& 0 <= p < items.len()
    &&& items[p] == item
    &&& forall|j: int| 0 <= j < p ==> items[j] != item
}

/// The first position of `item` in `items`, where it occurs.
pub open spec fn first_position(items: Seq<u128>, item: u128) -> int {
    choose|p: int| is_first(items, item, p)
}

/// `items` with the entry at `p` replaced by the last one, and one shorter.
pub open spec fn swap_removed(items: Seq<u128>, p: int) -> Seq<u128> {
    items.update(p, items.last()).drop_last()
}

/// `items` without the first occurrence of `item`, the last entry moved
/// into its place.
pub open spec fn without(items: Seq<u128>, item: u128) -> Seq<u128> {
    if items.contains(item) {
        swap_removed(items, first_position(items, item))
    } else {
        items
    }
}

/// An item that occurs has exactly one first position.
pub proof fn lemma_first_position(items: Seq<u128>, item: u128, p: int)
    requires
        is_first(items, item, p),
    ensures
        items.contains(item),
        first_position(items, item) == p,
{
    let q = first_position(items, item);
    assert(is_first(items, item, q));
    if q < p {
        assert(items[q] != item);
    }
    if p < q {
        assert(items[p] != item);
    }
}

/// Taking an item out of a list without repetitions leaves a list without
/// repetitions that lacks the item and holds every other entry still.
pub proof fn lemma_without(items: Seq<u128>, item: u128)
    requires
        items.no_duplicates(),
    ensures
        without(items, item).no_duplicates(),
        !without(items, item).contains(item),
        forall|x: u128| x != item ==> (without(items, item).contains(x) <==> items.contains(x)),
{
    let out = without(items, item);
    if items.contains(item) {
        let w = choose|i: int| 0 <= i < items.len() && items[i] == item;
        lemma_some_first(items, item, w);
        let p = first_position(items, item);
        assert(is_first(items, item, p));
        let last = items.len() - 1;
        assert forall|i: int, j: int| 0 <= i < out.len() && 0 <= j < out.len() && i != j implies out[i]
            != out[j] by {
            let si = if i == p {
                last
            } else {
                i
            };
            let sj = if j == p {
                last
            } else {
                j
            };
            assert(out[i] == items[si]);
            assert(out[j] == items[sj]);
        }
        assert forall|i: int| 0 <= i < out.len() implies out[i] != item by {
            let si = if i == p {
                last
            } else {
                i
            };
            assert(out[i] == items[si]);
        }
        assert forall|x: u128| x != item implies (out.contains(x) <==> items.contains(x)) by {
            if out.contains(x) {
                let i = choose|i: int| 0 <= i < out.len() && out[i] == x;
                let si = if i == p {
                    last
                } else {
                    i
                };
                assert(items[si] == x);
            }
            if items.contains(x) {
                let i = choose|i: int| 0 <= i < items.len() && items[i] == x;
                if i == last {
                    assert(p != last);
                    assert(out[p] == x);
                } else {
                    assert(out[i] == x);
                }
            }
        }
    }
}

/// An item that occurs at some position has a first position.
pub proof fn lemma_some_first(items: Seq<u128>, item: u128, w: int)
    requires
        0 <= w < items.len(),
        items[w] == item,
    ensures
        is_first(items, item, first_position(items, item)),
    decreases w,
{
    if forall|j: int| 0 <= j < w ==> items[j] != item {
        assert(is_first(items, item, w));
    } else {
        let j = choose|j: int| 0 <= j < w && items[j] == item;
        lemma_some_first(items, item, j);
    }
}

impl State {
    /// The bucket of one index at one block.
    pub open spec fn bucket(self, window: Window, block: u64) -> Seq<u128> {
        match window {
            Window::Report => self.report_index[block],
            Window::Dispute => self.dispute_index[block],
        }
    }

    /// The state with one bucket of one index replaced.
    pub open spec fn with_bucket(self, window: Window, block: u64, ids: Seq<u128>) -> State {
        match window {
            Window::Report => State { report_index: self.report_index.insert(block, ids), ..self },
            Window::Dispute => State {
                dispute_index: self.dispute_index.insert(block, ids),
                ..self
            },
        }
    }

    /// The state of a new engine.
    pub open spec fn initial(config: Config, ledgers: Ledgers) -> State {
        State {
            config,
            ledgers,
            markets: Map::empty(),
            market_count: 0,
            disputes: Map::total(|id: u128| Seq::empty()),
            report_index: Map::total(|block: u64| Seq::empty()),
            dispute_index: Map::total(|block: u64| Seq::empty()),
            pools: Map::empty(),
        }
    }

    /// What holds of the record of market `id` and its dispute log.
    pub open spec fn market_wf(self, id: u128) -> bool {
        let market = self.markets[id];
        let log = self.disputes[id];
        &&& id < self.market_count
        &&& market.consistent()
        &&& market.categories <= self.config.max_categories
        &&& market.status == MarketStatus::Disputed ==> log.len() > 0
        &&& log.len() > 0 ==> market.status == MarketStatus::Disputed || market.status
            == MarketStatus::Resolved
    }

    /// What holds of the dispute log of every identifier: it is no longer
    /// than the configured maximum, no two adjacent entries claim the same
    /// outcome, and an identifier that was never assigned has none.
    pub open spec fn log_wf(self, id: u128) -> bool {
        let log = self.disputes[id];
        &&& log.len() <= self.config.max_disputes
        &&& disputes_ordered(log)
        &&& log.len() > 0 ==> id < self.market_count
    }

    /// What holds of an identifier listed in a bucket: it was assigned, and
    /// where its market is still there, the bucket is the one of its report
    /// or of its latest dispute.
    pub open spec fn entry_wf(self, window: Window, block: u64, id: u128) -> bool {
        &&& id < self.market_count
        &&& self.markets.contains_key(id) ==> match window {
            Window::Report => match self.markets[id].report {
                Some(report) => report.at == block,
                None => false,
            },
            Window::Dispute => self.disputes[id].len() > 0 && self.disputes[id].last().at == block,
        }
    }

    /// What holds of every bucket: no identifier is listed twice, and every
    /// entry is in order.
    pub open spec fn bucket_wf(self, window: Window, block: u64) -> bool {
        let ids = self.bucket(window, block);
        &&& ids.no_duplicates()
        &&& forall|i: int| 0 <= i < ids.len() ==> #[trigger] self.entry_wf(window, block, ids[i])
    }

    /// The maps that stand for stores with a default are total.
    pub open spec fn total(self) -> bool {
        &&& self.ledgers.total()
        &&& forall|id: u128| self.disputes.contains_key(id)
        &&& forall|block: u64| self.report_index.contains_key(block)
        &&& forall|block: u64| self.dispute_index.contains_key(block)
    }

    /// What holds of the engine at all times.
    pub open spec fn wf(self) -> bool {
        &&& self.config.valid()
        &&& self.total()
        &&& forall|id: u128| self.markets.contains_key(id) ==> #[trigger] self.market_wf(id)
        &&& forall|id: u128| #[trigger] self.log_wf(id)
        &&& forall|window: Window, block: u64| #[trigger] self.bucket_wf(window, block)
    }

    /// What holds of an identifier that a bucket lists.
    pub proof fn lemma_entry(self, window: Window, block: u64, id: u128)
        requires
            self.wf(),
            self.bucket(window, block).contains(id),
        ensures
            self.entry_wf(window, block, id),
    {
        assert(self.bucket_wf(window, block));
        let ids = self.bucket(window, block);
        let i = choose|i: int| 0 <= i < ids.len() && ids[i] == id;
        assert(self.entry_wf(window, block, ids[i]));
    }

    /// An engine in order stays in order through a change that touches the
    /// record and the dispute log of one identifier at most: where the new
    /// record and log of that identifier are in order, every bucket is as
    /// it was or in order, and a bucket that is as it was and lists the
    /// identifier is still the one it belongs to.
    pub proof fn lemma_wf_carried(self, after: State, id: u128)
        requires
            self.wf(),
            after.config == self.config,
            after.total(),
            after.market_count >= self.market_count,
            forall|other: u128|
                other != id && #[trigger] after.markets.contains_key(other)
                    ==> self.markets.contains_key(other) && after.markets[other]
                    == self.markets[other],
            forall|other: u128| other != id ==> #[trigger] after.disputes[other] == self.disputes[other],
            after.markets.contains_key(id) ==> after.market_wf(id),
            after.log_wf(id),
            forall|window: Window, block: u64|
                (#[trigger] after.bucket(window, block)) == self.bucket(window, block)
                    || after.bucket_wf(window, block),
            forall|window: Window, block: u64|
                self.bucket(window, block).contains(id) && after.bucket(window, block)
                    == self.bucket(window, block) ==> #[trigger] after.entry_wf(window, block, id),
        ensures
            after.wf(),
    {
        assert forall|other: u128| after.markets.contains_key(other) implies #[trigger] after.market_wf(
            other,
        ) by {
            if other != id {
                assert(self.market_wf(other));
                assert(after.disputes[other] == self.disputes[other]);
            }
        }
        assert forall|other: u128| #[trigger] after.log_wf(other) by {
            if other != id {
                assert(self.log_wf(other));
                assert(after.disputes[other] == self.disputes[other]);
            }
        }
        assert forall|window: Window, block: u64| #[trigger] after.bucket_wf(window, block) by {
            if after.bucket(window, block) == self.bucket(window, block) {
                assert(self.bucket_wf(window, block));
                let ids = self.bucket(window, block);
                assert forall|i: int| 0 <= i < ids.len() implies #[trigger] after.entry_wf(
                    window,
                    block,
                    ids[i],
                ) by {
                    assert(self.entry_wf(window, block, ids[i]));
                    if ids[i] == id {
                        assert(self.bucket(window, block).contains(id));
                    } else {
                        assert(after.disputes[ids[i]] == self.disputes[ids[i]]);
                        if after.markets.contains_key(ids[i]) {
                            assert(after.markets[ids[i]] == self.markets[ids[i]]);
                        }
                    }
                }
            }
        }
    }

    /// An engine in order stays in order through a change that leaves the
    /// records and the dispute logs alone, and every bucket as it was or in
    /// order.
    pub proof fn lemma_wf_buckets(self, after: State)
        requires
            self.wf(),
            after.config == self.config,
            after.total(),
            after.market_count >= self.market_count,
            after.markets == self.markets,
            after.disputes == self.disputes,
            forall|window: Window, block: u64|
                (#[trigger] after.bucket(window, block)) == self.bucket(window, block)
                    || after.bucket_wf(window, block),
        ensures
            after.wf(),
    {
        if self.markets.contains_key(0) {
            assert(self.market_wf(0));
        }
        assert(self.log_wf(0));
        assert forall|window: Window, block: u64|
            self.bucket(window, block).contains(0) && after.bucket(window, block) == self.bucket(
                window,
                block,
            ) implies #[trigger] after.entry_wf(window, block, 0) by {
            self.lemma_entry(window, block, 0);
        }
        self.lemma_wf_carried(after, 0);
    }

    /// The ledgers have no part in what holds of the engine.
    pub proof fn lemma_wf_ledgers(self, ledgers: Ledgers)
        requires
            self.wf(),
            ledgers.total(),
        ensures
            (State { ledgers, ..self }).wf(),
    {
        self.lemma_wf_buckets(State { ledgers, ..self });
    }

    /// Storing a record keeps the engine in order where the record agrees
    /// with the dispute log and the report index of its identifier.
    pub proof fn lemma_wf_put_market(self, id: u128, market: Market)
        requires
            self.wf(),
            self.markets.contains_key(id),
            market.consistent(),
            market.categories <= self.config.max_categories,
            market.status == MarketStatus::Disputed ==> self.disputes[id].len() > 0,
            self.disputes[id].len() > 0 ==> market.status == MarketStatus::Disputed || market.status
                == MarketStatus::Resolved,
            forall|block: u64| #[trigger]
                self.report_index[block].contains(id) ==> match market.report {
                    Some(report) => report.at == block,
                    None => false,
                },
        ensures
            (State { markets: self.markets.insert(id, market), ..self }).wf(),
    {
        let t = State { markets: self.markets.insert(id, market), ..self };
        assert(self.market_wf(id));
        assert(self.log_wf(id));
        assert forall|window: Window, block: u64|
            self.bucket(window, block).contains(id) implies #[trigger] t.entry_wf(
            window,
            block,
            id,
        ) by {
            self.lemma_entry(window, block, id);
            if window == Window::Report {
                assert(self.report_index[block].contains(id));
            }
        }
        self.lemma_wf_carried(t, id);
    }

    /// A market that a bucket of the report index lists was reported at the
    /// block of that bucket.
    pub proof fn lemma_report_entry(self, id: u128, block: u64)
        requires
            self.wf(),
            self.markets.contains_key(id),
            self.report_index[block].contains(id),
        ensures
            match self.markets[id].report {
                Some(report) => report.at == block,
                None => false,
            },
    {
        self.lemma_entry(Window::Report, block, id);
    }

    /// Replacing a record by one with the same report keeps the engine in
    /// order where the new record agrees with the dispute log.
    pub proof fn lemma_wf_update_market(self, id: u128, market: Market)
        requires
            self.wf(),
            self.markets.contains_key(id),
            market.report == self.markets[id].report,
            market.consistent(),
            market.categories <= self.config.max_categories,
            market.status == MarketStatus::Disputed ==> self.disputes[id].len() > 0,
            self.disputes[id].len() > 0 ==> market.status == MarketStatus::Disputed || market.status
                == MarketStatus::Resolved,
        ensures
            (State { markets: self.markets.insert(id, market), ..self }).wf(),
    {
        assert forall|block: u64| #[trigger]
            self.report_index[block].contains(id) implies match market.report {
            Some(report) => report.at == block,
            None => false,
        } by {
            self.lemma_report_entry(id, block);
        }
        self.lemma_wf_put_market(id, market);
    }

    /// The state with `market` stored under the next identifier.
    pub open spec fn with_new_market(self, market: Market) -> State {
        State {
            markets: self.markets.insert(self.market_count, market),
            market_count: (self.market_count + 1) as u128,
            ..self
        }
    }

    /// Storing a fresh record under the next identifier keeps the engine in
    /// order.
    pub proof fn lemma_wf_new_market(self, market: Market)
        requires
            self.wf(),
            self.market_count < u128::MAX,
            market.consistent(),
            market.categories <= self.config.max_categories,
            market.status != MarketStatus::Disputed,
            market.report.is_none(),
        ensures
            self.with_new_market(market).wf(),
            !self.markets.contains_key(self.market_count),
    {
        let id = self.market_count;
        let t = self.with_new_market(market);
        if self.markets.contains_key(id) {
            assert(self.market_wf(id));
        }
        assert(self.log_wf(id));
        assert forall|window: Window, block: u64|
            self.bucket(window, block).contains(id) implies #[trigger] t.entry_wf(
            window,
            block,
            id,
        ) by {
            self.lemma_entry(window, block, id);
        }
        self.lemma_wf_carried(t, id);
    }

    /// Appending a dispute to the log of a reported or disputed market, and
    /// marking the market disputed, keeps the engine in order where the log
    /// has room, the outcome differs from that of the latest dispute, and
    /// no bucket of the dispute index lists the market.
    pub proof fn lemma_wf_dispute_logged(self, id: u128, dispute: MarketDispute)
        requires
            self.wf(),
            self.markets.contains_key(id),
            self.markets[id].status == MarketStatus::Reported || self.markets[id].status
                == MarketStatus::Disputed,
            self.disputes[id].len() < self.config.max_disputes,
            self.disputes[id].len() > 0 ==> self.disputes[id].last().outcome != dispute.outcome,
            forall|block: u64| !(#[trigger] self.dispute_index[block]).contains(id),
        ensures
            (State {
                disputes: self.disputes.insert(id, self.disputes[id].push(dispute)),
                markets: self.markets.insert(
                    id,
                    Market { status: MarketStatus::Disputed, ..self.markets[id] },
                ),
                ..self
            }).wf(),
    {
        let log = self.disputes[id];
        let grown = log.push(dispute);
        let t = State {
            disputes: self.disputes.insert(id, grown),
            markets: self.markets.insert(
                id,
                Market { status: MarketStatus::Disputed, ..self.markets[id] },
            ),
            ..self
        };
        assert(self.market_wf(id));
        assert(self.log_wf(id));
        assert forall|i: int| 0 < i < grown.len() implies (#[trigger] grown[i]).outcome != grown[i
            - 1].outcome by {
            if i < log.len() {
                assert(grown[i] == log[i]);
                assert(grown[i - 1] == log[i - 1]);
            }
        }
        assert forall|window: Window, block: u64|
            self.bucket(window, block).contains(id) implies #[trigger] t.entry_wf(
            window,
            block,
            id,
        ) by {
            self.lemma_entry(window, block, id);
            if window == Window::Dispute {
                assert(self.dispute_index[block].contains(id));
            }
        }
        self.lemma_wf_carried(t, id);
    }

    /// Once a market is off the bucket of its latest dispute, no bucket of
    /// the dispute index lists it.
    pub proof fn lemma_dispute_unlisted(self, id: u128)
        requires
            self.wf(),
            self.markets.contains_key(id),
            self.disputes[id].len() > 0 ==> !self.dispute_index[self.disputes[id].last().at].contains(
                id,
            ),
        ensures
            forall|block: u64| !(#[trigger] self.dispute_index[block]).contains(id),
    {
        assert forall|block: u64| !(#[trigger] self.dispute_index[block]).contains(id) by {
            if self.dispute_index[block].contains(id) {
                self.lemma_entry(Window::Dispute, block, id);
            }
        }
    }

    /// Dropping the dispute log of an identifier that has no record keeps
    /// the engine in order.
    pub proof fn lemma_wf_clear_log(self, id: u128)
        requires
            self.wf(),
            !self.markets.contains_key(id),
        ensures
            (State { disputes: self.disputes.insert(id, Seq::empty()), ..self }).wf(),
    {
        let t = State { disputes: self.disputes.insert(id, Seq::empty()), ..self };
        assert(self.log_wf(id));
        assert forall|window: Window, block: u64|
            self.bucket(window, block).contains(id) implies #[trigger] t.entry_wf(
            window,
            block,
            id,
        ) by {
            self.lemma_entry(window, block, id);
        }
        self.lemma_wf_carried(t, id);
    }

    /// The pools have no part in what holds of the engine.
    pub proof fn lemma_wf_pools(self, pools: Map<u128, u128>)
        requires
            self.wf(),
        ensures
            (State { pools, ..self }).wf(),
    {
        self.lemma_wf_buckets(State { pools, ..self });
    }

    /// Advancing the market counter keeps the engine in order.
    pub proof fn lemma_wf_counter(self)
        requires
            self.wf(),
            self.market_count < u128::MAX,
        ensures
            (State { market_count: (self.market_count + 1) as u128, ..self }).wf(),
    {
        self.lemma_wf_buckets(State { market_count: (self.market_count + 1) as u128, ..self });
    }

    /// Deleting a record keeps the engine in order.
    pub proof fn lemma_wf_remove_market(self, id: u128)
        requires
            self.wf(),
        ensures
            (State { markets: self.markets.remove(id), ..self }).wf(),
    {
        let t = State { markets: self.markets.remove(id), ..self };
        assert(self.log_wf(id));
        assert forall|window: Window, block: u64|
            self.bucket(window, block).contains(id) implies #[trigger] t.entry_wf(
            window,
            block,
            id,
        ) by {
            self.lemma_entry(window, block, id);
        }
        self.lemma_wf_carried(t, id);
    }

    /// Replacing a bucket by one that lists a part of it without
    /// repetitions keeps the engine in order.
    pub proof fn lemma_wf_bucket_shrunk(self, window: Window, block: u64, ids: Seq<u128>)
        requires
            self.wf(),
            ids.no_duplicates(),
            forall|i: int| 0 <= i < ids.len() ==> self.bucket(window, block).contains(#[trigger] ids[i]),
        ensures
            self.with_bucket(window, block, ids).wf(),
    {
        let t = self.with_bucket(window, block, ids);
        let old_ids = self.bucket(window, block);
        assert forall|i: int| 0 <= i < ids.len() implies #[trigger] t.entry_wf(
            window,
            block,
            ids[i],
        ) by {
            assert(old_ids.contains(ids[i]));
            self.lemma_entry(window, block, ids[i]);
        }
        self.lemma_wf_buckets(t);
    }

    /// Taking an identifier off a bucket keeps the engine in order, and the
    /// bucket no longer lists it.
    pub proof fn lemma_wf_bucket_remove(self, window: Window, block: u64, id: u128)
        requires
            self.wf(),
        ensures
            self.with_bucket(window, block, without(self.bucket(window, block), id)).wf(),
            !without(self.bucket(window, block), id).contains(id),
    {
        assert(self.bucket_wf(window, block));
        let ids = self.bucket(window, block);
        lemma_without(ids, id);
        let out = without(ids, id);
        assert forall|i: int| 0 <= i < out.len() implies ids.contains(#[trigger] out[i]) by {
            assert(out.contains(out[i]));
        }
        self.lemma_wf_bucket_shrunk(window, block, out);
    }

    /// Listing an identifier in a bucket that lacks it keeps the engine in
    /// order where the bucket is the one that the identifier belongs to.
    pub proof fn lemma_wf_bucket_push(self, window: Window, block: u64, id: u128)
        requires
            self.wf(),
            !self.bucket(window, block).contains(id),
            self.entry_wf(window, block, id),
        ensures
            self.with_bucket(window, block, self.bucket(window, block).push(id)).wf(),
    {
        let old_ids = self.bucket(window, block);
        let ids = old_ids.push(id);
        let t = self.with_bucket(window, block, ids);
        assert forall|i: int| 0 <= i < ids.len() implies #[trigger] t.entry_wf(
            window,
            block,
            ids[i],
        ) by {
            if i < old_ids.len() {
                assert(old_ids.contains(old_ids[i]));
                self.lemma_entry(window, block, old_ids[i]);
            }
        }
        assert forall|i: int, j: int|
            0 <= i < ids.len() && 0 <= j < ids.len() && i != j implies ids[i] != ids[j] by {
            if i < old_ids.len() {
                assert(old_ids.contains(old_ids[i]));
            }
            if j < old_ids.len() {
                assert(old_ids.contains(old_ids[j]));
            }
            assert(self.bucket_wf(window, block));
        }
        self.lemma_wf_buckets(t);
    }

    /// In an engine in order, an identifier occupies at most one bucket of
    /// each index: the one of its report, or of its latest dispute.
    pub proof fn lemma_one_bucket(self, window: Window, a: u64, b: u64, id: u128)
        requires
            self.wf(),
            self.markets.contains_key(id),
            self.bucket(window, a).contains(id),
            self.bucket(window, b).contains(id),
        ensures
            a == b,
    {
        self.lemma_entry(window, a, id);
        self.lemma_entry(window, b, id);
    }
}

} // verus!
