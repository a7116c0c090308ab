//! The scheduling indices: which markets wait at which block for their
//! report or dispute window to close.

use crate::error::Error;
use crate::ledger::Trait;
use crate::market::MarketStatus;
use crate::module::Module;
use crate::state::{without, State, Window};
use vstd::prelude::*;

verus! {

impl State {
    /// The state with market `id` taken off the bucket of its report and
    /// off the bucket of its latest dispute.
    pub open spec fn unscheduled(self, id: u128) -> State {
        let reported = match self.markets[id].report {
            Some(report) => self.with_bucket(
                Window::Report,
                report.at,
                without(self.bucket(Window::Report, report.at), id),
            ),
            None => self,
        };
        let log = self.disputes[id];
        if log.len() > 0 {
            reported.with_bucket(
                Window::Dispute,
                log.last().at,
                without(reported.bucket(Window::Dispute, log.last().at), id),
            )
        } else {
            reported
        }
    }

    /// No bucket of either index lists `id`.
    pub open spec fn unlisted(self, id: u128) -> bool {
        forall|window: Window, block: u64| !(#[trigger] self.bucket(window, block)).contains(id)
    }

    /// Taking a market off the buckets of its report and of its latest
    /// dispute leaves it in no bucket at all, and the engine in order.
    pub proof fn lemma_unscheduled(self, id: u128)
        requires
            self.wf(),
            self.markets.contains_key(id),
        ensures
            self.unscheduled(id).wf(),
            self.unscheduled(id).unlisted(id),
            self.unscheduled(id).markets == self.markets,
            self.unscheduled(id).disputes == self.disputes,
            self.unscheduled(id).ledgers == self.ledgers,
            self.unscheduled(id).market_count == self.market_count,
            self.unscheduled(id).pools == self.pools,
            self.unscheduled(id).config == self.config,
    {
        let reported = match self.markets[id].report {
            Some(report) => self.with_bucket(
                Window::Report,
                report.at,
                without(self.bucket(Window::Report, report.at), id),
            ),
            None => self,
        };
        match self.markets[id].report {
            Some(report) => {
                self.lemma_wf_bucket_remove(Window::Report, report.at, id);
            },
            None => {},
        }
        let log = self.disputes[id];
        if log.len() > 0 {
            reported.lemma_wf_bucket_remove(Window::Dispute, log.last().at, id);
        }
        let t = self.unscheduled(id);
        assert forall|window: Window, block: u64| !(#[trigger] t.bucket(window, block)).contains(
            id,
        ) by {
            if t.bucket(window, block).contains(id) {
                t.lemma_entry(window, block, id);
            }
        }
    }
}

impl State {
    /// Whether a market listed in a bucket of `window` is due for
    /// resolution when the bucket matures: a market of the report index
    /// where it is still reported and was not disputed since, a market of
    /// the dispute index where it is still disputed.
    pub open spec fn due(self, window: Window, id: u128) -> bool {
        &&& self.markets.contains_key(id)
        &&& match window {
            Window::Report => self.markets[id].status == MarketStatus::Reported,
            Window::Dispute => self.markets[id].status == MarketStatus::Disputed,
        }
    }

    /// The state after the first `k` of `ids` were gone through in order,
    /// and each that was due was resolved.
    pub open spec fn resolve_each(self, ids: Seq<u128>, window: Window, k: nat) -> State
        decreases k,
    {
        if k == 0 {
            self
        } else {
            let prev = self.resolve_each(ids, window, (k - 1) as nat);
            if prev.due(window, ids[k - 1]) {
                prev.resolved(ids[k - 1])
            } else {
                prev
            }
        }
    }

    /// The state after the tick of block `now`: nothing happens until the
    /// dispute period has passed once; from then on the bucket that lies
    /// one dispute period back is emptied in each index, and the markets
    /// it listed are resolved where they are due, those of the report
    /// index first.
    pub open spec fn finalized(self, now: u64) -> State {
        if now <= self.config.dispute_period {
            self
        } else {
            let block = (now - self.config.dispute_period) as u64;
            let reports = self.bucket(Window::Report, block);
            let first = self.with_bucket(Window::Report, block, Seq::empty()).resolve_each(
                reports,
                Window::Report,
                reports.len(),
            );
            let disputes = first.bucket(Window::Dispute, block);
            first.with_bucket(Window::Dispute, block, Seq::empty()).resolve_each(
                disputes,
                Window::Dispute,
                disputes.len(),
            )
        }
    }
}

impl<T: Trait> Module<T> {
    /// Goes through `ids` in order and resolves each market that is due.
    /// One that is gone, or no longer due, is passed over.
    fn resolve_listed(&mut self, ids: &Vec<u128>, window: Window)
        requires
            old(self).wf(),
        ensures
            final(self).wf(),
            final(self)@ == old(self)@.resolve_each(ids@, window, ids@.len()),
    {
        let mut k: usize = 0;
        while k < ids.len()
            invariant
                k <= ids.len(),
                self.wf(),
                self@ == old(self)@.resolve_each(ids@, window, k as nat),
            decreases ids.len() - k,
        {
            let market_id = ids[k];
            let due = match self.market_by_id(market_id) {
                Ok(market) => match window {
                    Window::Report => market.status == MarketStatus::Reported,
                    Window::Dispute => market.status == MarketStatus::Disputed,
                },
                Err(_) => false,
            };
            if due {
                self.internal_resolve(market_id);
            }
            k += 1;
        }
    }

    /// The tick at the end of block `now`: resolves the markets whose
    /// report or latest dispute lies exactly one dispute period back.
    pub fn on_finalize(&mut self, now: u64)
        requires
            old(self).wf(),
        ensures
            final(self).wf(),
            final(self)@ == old(self)@.finalized(now),
    {
        let period = self.config().dispute_period;
        if now <= period {
            return ;
        }
        let block = now - period;
        proof {
            old(self)@.lemma_wf_bucket_shrunk(Window::Report, block, Seq::empty());
        }
        let reports = self.bucket_take(Window::Report, block);
        self.resolve_listed(&reports, Window::Report);
        proof {
            self@.lemma_wf_bucket_shrunk(Window::Dispute, block, Seq::empty());
        }
        let disputes = self.bucket_take(Window::Dispute, block);
        self.resolve_listed(&disputes, Window::Dispute);
    }

    /// Clears market `market_id` from the scheduling indices, so that no
    /// tick resolves it.
    pub fn clear_auto_resolve(&mut self, market_id: u128) -> (r: Result<(), Error>)
        requires
            old(self).wf(),
        ensures
            final(self).wf(),
            match r {
                Ok(_) => {
                    &&& old(self)@.markets.contains_key(market_id)
                    &&& final(self)@ == old(self)@.unscheduled(market_id)
                    &&& final(self)@.unlisted(market_id)
                },
                Err(e) => {
                    &&& e == Error::MarketNotFound
                    &&& !old(self)@.markets.contains_key(market_id)
                    &&& final(self)@ == old(self)@
                },
            },
    {
        let report = match self.market_by_id(market_id) {
            Ok(market) => market.report,
            Err(e) => {
                return Err(e);
            },
        };
        proof {
            old(self)@.lemma_unscheduled(market_id);
        }
        match report {
            Some(report) => {
                self.bucket_remove(Window::Report, report.at, market_id);
            },
            None => {},
        }
        let log = self.disputes(market_id);
        let n = log.len();
        if n > 0 {
            let at = log[n - 1].at;
            self.bucket_remove(Window::Dispute, at, market_id);
        }
        Ok(())
    }
}

} // verus!
