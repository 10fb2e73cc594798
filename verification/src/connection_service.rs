//! The publish/subscribe broker: a registry of subscribers with one
//! bounded outbound queue each, a per-subscriber subscription (one symbol,
//! or the aggregate feed), and the market cache used to seed a fresh
//! subscription with recent history. Queues are bounded at
//! `QUEUE_CAP` entries: a publish to a full queue drops the event for
//! that subscriber only, so slow consumers lose the freshest data rather
//! than stalling the publisher.

use vstd::prelude::*;

verus! {

use crate::data::OHLCModel;
use crate::data::DecodeError;
use crate::data::decodes_to;
use crate::data::decode_err_of;
use crate::data::record_valid;
use crate::data::candle_bounded;
use crate::stock_analysis::end_of_update;
use crate::stock_analysis::render_analysis;
use crate::stock_analysis::history_push;
use crate::stock_information::snapshot_of;
use crate::stock_information_cache::StockInformationCache;
use crate::stock_information_cache::ingest_rel;
use crate::stock_information_cache::lines_of;

/// Capacity of each subscriber's outbound queue.
pub const QUEUE_CAP: usize = 1000;

/// The name that selects the aggregate feed instead of one symbol.
pub open spec fn aggregate_name() -> Seq<char> {
    ("DataFeed")@
}

/// What a subscriber listens to: the aggregate feed, or one symbol.
#[derive(Debug)]
pub enum SubscriptionTarget {
    Aggregate,
    Stock(String),
}

/// One registered subscriber: its never-reused id, its bounded outbound
/// queue, and its current subscription, if any.
pub struct Subscriber {
    id: usize,
    queue: Vec<String>,
    subscription: Option<SubscriptionTarget>,
}

impl Subscriber {
    pub closed spec fn id_spec(self) -> usize {
        self.id
    }

    /// The pending outbound messages, oldest first.
    pub closed spec fn queue_view(self) -> Seq<Seq<char>> {
        self.queue.deep_view()
    }

    pub closed spec fn sub_spec(self) -> Option<SubscriptionTarget> {
        self.subscription
    }
}

/// Whether the subscriber currently listens to `name` (the aggregate
/// sentinel selects the aggregate feed).
pub open spec fn is_subscribed_to(s: Subscriber, name: Seq<char>) -> bool {
    match s.sub_spec() {
        None => false,
        Some(SubscriptionTarget::Aggregate) => name == aggregate_name(),
        Some(SubscriptionTarget::Stock(n)) => n@ == name,
    }
}

/// The ids subscribed to `name`, in registration order.
pub open spec fn subscriber_ids(s: Seq<Subscriber>, name: Seq<char>) -> Seq<usize>
    decreases s.len(),
{
    if s.len() == 0 {
        Seq::<usize>::empty()
    } else {
        let rest = subscriber_ids(s.drop_last(), name);
        if is_subscribed_to(s.last(), name) {
            rest.push(s.last().id_spec())
        } else {
            rest
        }
    }
}

/// Appending one event to a subscriber under the backpressure policy:
/// the event is kept only when the queue is below capacity; the id and
/// subscription never change.
pub open spec fn event_added(s0: Subscriber, s1: Subscriber, e: Seq<char>) -> bool {
    &&& s1.id_spec() == s0.id_spec()
    &&& s1.sub_spec() == s0.sub_spec()
    &&& s1.queue_view() == if s0.queue_view().len() < QUEUE_CAP {
        s0.queue_view().push(e)
    } else {
        s0.queue_view()
    }
}

/// A queue after a whole run of publishes under the backpressure policy.
pub open spec fn queue_after(q: Seq<Seq<char>>, evs: Seq<Seq<char>>) -> Seq<Seq<char>>
    decreases evs.len(),
{
    if evs.len() == 0 {
        q
    } else {
        let q1 = if q.len() < QUEUE_CAP {
            q.push(evs[0])
        } else {
            q
        };
        queue_after(q1, evs.drop_first())
    }
}

/// Law (backpressure): a queue holds the oldest events. Publishing any
/// run of events to a queue below capacity keeps exactly the first
/// `QUEUE_CAP` of queue-then-events and drops the rest; in particular,
/// publishing more than fit leaves the queue at exactly `QUEUE_CAP`
/// entries, the earliest ones.
pub proof fn lemma_backpressure(q: Seq<Seq<char>>, evs: Seq<Seq<char>>)
    requires
        q.len() <= QUEUE_CAP,
    ensures
        queue_after(q, evs) == if q.len() + evs.len() <= QUEUE_CAP {
            q + evs
        } else {
            (q + evs).take(QUEUE_CAP as int)
        },
        queue_after(q, evs).len() == if q.len() + evs.len() <= QUEUE_CAP {
            q.len() + evs.len()
        } else {
            QUEUE_CAP as nat
        },
    decreases evs.len(),
{
    if evs.len() == 0 {
        assert(q + evs =~= q);
    } else if q.len() < QUEUE_CAP {
        let q1 = q.push(evs[0]);
        lemma_backpressure(q1, evs.drop_first());
        assert(q1 + evs.drop_first() =~= q + evs);
        if q1.len() + evs.drop_first().len() > QUEUE_CAP {
            assert((q1 + evs.drop_first()).take(QUEUE_CAP as int) =~= (q + evs).take(
                QUEUE_CAP as int,
            ));
        }
    } else {
        lemma_backpressure(q, evs.drop_first());
        assert(q.len() == QUEUE_CAP);
        if evs.drop_first().len() == 0 {
            assert(q + evs.drop_first() =~= q);
        } else {
            assert((q + evs.drop_first()).take(QUEUE_CAP as int) =~= q);
        }
        assert((q + evs).take(QUEUE_CAP as int) =~= q);
    }
}

/// The subscriber registry, per-subscriber queues, and the market cache
/// that seeds new subscriptions.
pub struct ConnectionService {
    stock_cache: StockInformationCache,
    current_id: usize,
    subscribers: Vec<Subscriber>,
}

impl ConnectionService {
    /// The registered subscribers, in registration order.
    pub closed spec fn subs_view(self) -> Seq<Subscriber> {
        self.subscribers@
    }

    /// The id the next subscriber will get.
    pub closed spec fn next_id(self) -> usize {
        self.current_id
    }

    /// The market cache the broker reads and feeds.
    pub closed spec fn cache_view(self) -> StockInformationCache {
        self.stock_cache
    }

    /// The broker invariant: ids are strictly increasing (so unique and
    /// never reused) and below the next id, queues are bounded, and a
    /// symbol subscription never carries the aggregate sentinel.
    pub closed spec fn well_formed(self) -> bool {
        &&& self.stock_cache.well_formed()
        &&& forall|i: int, j: int|
            0 <= i < j < self.subscribers@.len()
                ==> self.subscribers@[i].id < self.subscribers@[j].id
        &&& forall|i: int|
            0 <= i < self.subscribers@.len() ==> (#[trigger] self.subscribers@[i]).id
                < self.current_id
        &&& forall|i: int|
            0 <= i < self.subscribers@.len() ==> (#[trigger] self.subscribers@[i]).queue@.len()
                <= QUEUE_CAP
        &&& forall|i: int|
            0 <= i < self.subscribers@.len()
                ==> ((#[trigger] self.subscribers@[i]).subscription matches Some(
                SubscriptionTarget::Stock(nm)) ==> nm@ != aggregate_name())
    }
}

/// Whether some registered subscriber has this id.
pub open spec fn has_sub_id(s: Seq<Subscriber>, id: usize) -> bool {
    exists|i: int| 0 <= i < s.len() && (#[trigger] s[i]).id_spec() == id
}

/// Why a subscribe call was rejected.
#[derive(Debug, Clone, Copy, PartialEq, Eq)]
pub enum SubscriptionError {
    /// The requested symbol is not tracked and is not the aggregate feed.
    UnknownSymbol,
    /// No subscriber with the given id is registered.
    UnknownSubscriber,
}

/// Whether the id list holds `x`.
fn ids_contain(v: &Vec<usize>, x: usize) -> (r: bool)
    ensures
        r == v@.contains(x),
{
    let n = v.len();
    let mut i: usize = 0;
    while i < n
        invariant
            i <= n,
            n == v@.len(),
            forall|j: int| 0 <= j < i ==> v@[j] != x,
        decreases n - i,
    {
        if v[i] == x {
            proof {
                assert(v@[i as int] == x);
            }
            return true;
        }
        i = i + 1;
    }
    proof {
        assert(!v@.contains(x));
    }
    false
}

/// The aggregate message `sync_data_events` publishes: the rendering of
/// the cache's aggregate counters at its last candle timestamp.
pub open spec fn sync_message(c: StockInformationCache) -> Seq<char> {
    render_analysis(
        c.analysis_view().stocks_spec(),
        c.analysis_view().trades_spec(),
        c.analysis_view().volume_spec(),
        c.analysis_view().market_value_spec(),
        c.state_view().3 as nat,
    )
}

impl ConnectionService {
    pub fn new() -> (c: Self)
        ensures
            c.well_formed(),
            c.subs_view() == Seq::<Subscriber>::empty(),
            c.next_id() == 0,
            c.cache_view().symbols() == Seq::<String>::empty(),
            c.cache_view().analysis_view().history_view() == Seq::<Seq<char>>::empty(),
    {
        ConnectionService {
            stock_cache: StockInformationCache::new(),
            current_id: 0,
            subscribers: Vec::new(),
        }
    }

    /// Feeds raw feed text to the market cache; the subscriber registry
    /// is untouched. The result is exactly that of the cache's ingest.
    pub fn add_ohlc_json(&mut self, json_data: &str) -> (r: Result<OHLCModel, DecodeError>)
        requires
            old(self).well_formed(),
        ensures
            final(self).well_formed(),
            final(self).subs_view() == old(self).subs_view(),
            final(self).next_id() == old(self).next_id(),
            ingest_rel(
                old(self).cache_view().state_view(),
                final(self).cache_view().state_view(),
                lines_of(json_data@),
            ),
            r is Ok <==> exists|i: int|
                0 <= i < lines_of(json_data@).len() && record_valid(
                    #[trigger] lines_of(json_data@)[i],
                ),
            r matches Ok(m) ==> candle_bounded(m) && exists|i: int|
                0 <= i < lines_of(json_data@).len() && #[trigger] decodes_to(
                    lines_of(json_data@)[i],
                    m,
                ) && (forall|j: int|
                    i < j < lines_of(json_data@).len() ==> !record_valid(
                        #[trigger] lines_of(json_data@)[j],
                    )),
            r matches Err(e) ==> e == if lines_of(json_data@).len() == 0 {
                DecodeError::MissingField
            } else {
                decode_err_of(lines_of(json_data@).last())
            },
    {
        self.stock_cache.add_json(json_data)
    }

    /// The ids currently subscribed to `stock_name` (the aggregate
    /// sentinel selects the aggregate feed), in registration order.
    pub fn get_subscribers(&self, stock_name: &String) -> (r: Vec<usize>)
        requires
            self.well_formed(),
        ensures
            r@ == subscriber_ids(self.subs_view(), stock_name@),
    {
        let n = self.subscribers.len();
        let mut out: Vec<usize> = Vec::new();
        let mut i: usize = 0;
        proof {
            assert(self.subscribers@.take(0) =~= Seq::<Subscriber>::empty());
        }
        while i < n
            invariant
                i <= n,
                n == self.subscribers@.len(),
                out@ == subscriber_ids(self.subscribers@.take(i as int), stock_name@),
            decreases n - i,
        {
            proof {
                assert(self.subscribers@.take(i as int + 1).drop_last() =~= self.subscribers@.take(
                    i as int,
                ));
                assert(self.subscribers@.take(i as int + 1).last() == self.subscribers@[i as int]);
            }
            let sub = &self.subscribers[i];
            let matched: bool = match &sub.subscription {
                None => false,
                Some(SubscriptionTarget::Aggregate) => {
                    let df = String::from_str("DataFeed");
                    *stock_name == df
                },
                Some(SubscriptionTarget::Stock(nm)) => *nm == *stock_name,
            };
            proof {
                assert(matched == is_subscribed_to(self.subscribers@[i as int], stock_name@));
            }
            if matched {
                out.push(sub.id);
            }
            i = i + 1;
        }
        proof {
            assert(self.subscribers@.take(n as int) =~= self.subscribers@);
        }
        out
    }

    /// Publishes one event to every listed subscriber: the event joins a
    /// queue below capacity and is dropped for a full queue; unlisted
    /// subscribers are untouched.
    pub fn add_events(&mut self, ids_to_update: &Vec<usize>, event: &String)
        requires
            old(self).well_formed(),
        ensures
            final(self).well_formed(),
            final(self).next_id() == old(self).next_id(),
            final(self).cache_view() == old(self).cache_view(),
            final(self).subs_view().len() == old(self).subs_view().len(),
            forall|i: int|
                #![trigger old(self).subs_view()[i]]
                0 <= i < old(self).subs_view().len() ==> if ids_to_update@.contains(
                    old(self).subs_view()[i].id_spec(),
                ) {
                    event_added(old(self).subs_view()[i], final(self).subs_view()[i], event@)
                } else {
                    final(self).subs_view()[i] == old(self).subs_view()[i]
                },
    {
        let n = self.subscribers.len();
        let mut i: usize = 0;
        while i < n
            invariant
                i <= n,
                n == self.subscribers@.len(),
                self.well_formed(),
                self.current_id == old(self).next_id(),
                self.stock_cache == old(self).cache_view(),
                forall|k: int| i <= k < n ==> self.subscribers@[k] == old(self).subs_view()[k],
                forall|k: int|
                    #![trigger old(self).subs_view()[k]]
                    0 <= k < i ==> if ids_to_update@.contains(
                        old(self).subs_view()[k].id_spec(),
                    ) {
                        event_added(old(self).subs_view()[k], self.subscribers@[k], event@)
                    } else {
                        self.subscribers@[k] == old(self).subs_view()[k]
                    },
            decreases n - i,
        {
            let has = ids_contain(ids_to_update, self.subscribers[i].id);
            if has {
                let ghost before = self.subscribers@;
                let mut sub = self.subscribers.remove(i);
                let ghost q0 = sub.queue.deep_view();
                if sub.queue.len() < QUEUE_CAP {
                    sub.queue.push(event.clone());
                    proof {
                        assert(sub.queue.deep_view() =~= q0.push(event@));
                    }
                }
                self.subscribers.insert(i, sub);
                proof {
                    assert(self.subscribers@ =~= before.update(i as int, sub));
                    assert(event_added(before[i as int], sub, event@));
                }
            }
            i = i + 1;
        }
    }

    /// The index of the subscriber with this id, if registered.
    fn find_by_id(&self, id: usize) -> (r: Option<usize>)
        requires
            self.well_formed(),
        ensures
            r matches Some(i) ==> i < self.subscribers@.len() && self.subscribers@[i as int].id
                == id,
            r is None <==> !has_sub_id(self.subs_view(), id),
    {
        let n = self.subscribers.len();
        let mut i: usize = 0;
        while i < n
            invariant
                i <= n,
                n == self.subscribers@.len(),
                forall|j: int| 0 <= j < i ==> (#[trigger] self.subscribers@[j]).id != id,
            decreases n - i,
        {
            if self.subscribers[i].id == id {
                proof {
                    assert(self.subscribers@[i as int].id_spec() == id);
                }
                return Some(i);
            }
            i = i + 1;
        }
        None
    }

    /// Atomically takes and clears the pending events of the subscriber
    /// with this id; an unknown id yields nothing and changes nothing.
    pub fn read_events(&mut self, id: &usize) -> (r: Vec<String>)
        requires
            old(self).well_formed(),
        ensures
            final(self).well_formed(),
            final(self).next_id() == old(self).next_id(),
            final(self).cache_view() == old(self).cache_view(),
            final(self).subs_view().len() == old(self).subs_view().len(),
            !has_sub_id(old(self).subs_view(), *id) ==> final(self).subs_view() == old(self).subs_view() && r.deep_view() == Seq::<Seq<char>>::empty(),
            has_sub_id(old(self).subs_view(), *id) ==> exists|i: int|
                #![trigger old(self).subs_view()[i]]
                0 <= i < old(self).subs_view().len() && old(self).subs_view()[i].id_spec() == *id
                    && r.deep_view() == old(self).subs_view()[i].queue_view() && final(self).subs_view()[i].id_spec() == *id && final(self).subs_view()[i].sub_spec() == old(self).subs_view()[i].sub_spec() && final(self).subs_view()[i].queue_view() == Seq::<
                    Seq<char>,
                >::empty() && (forall|j: int|
                    0 <= j < old(self).subs_view().len() && j != i ==> final(self).subs_view()[j]
                        == old(self).subs_view()[j]),
    {
        match self.find_by_id(*id) {
            None => {
                let r: Vec<String> = Vec::new();
                proof {
                    assert(r.deep_view() =~= Seq::<Seq<char>>::empty());
                }
                r
            },
            Some(i) => {
                let ghost before = self.subscribers@;
                let sub = self.subscribers.remove(i);
                let Subscriber { id: sid, queue: q, subscription: ssub } = sub;
                let fresh = Subscriber { id: sid, queue: Vec::new(), subscription: ssub };
                self.subscribers.insert(i, fresh);
                proof {
                    assert(self.subscribers@ =~= before.update(i as int, fresh));
                    assert(fresh.queue_view() =~= Seq::<Seq<char>>::empty());
                    assert(has_sub_id(old(self).subs_view(), *id));
                }
                q
            },
        }
    }

    /// Removes the subscriber's interest in `stock_name`: its
    /// subscription is cleared exactly when it is currently subscribed to
    /// that name; an empty name, an unknown id or a different
    /// subscription change nothing (the call is idempotent).
    pub fn remove_stock_subscription(&mut self, id: usize, stock_name: &String)
        requires
            old(self).well_formed(),
        ensures
            final(self).well_formed(),
            final(self).next_id() == old(self).next_id(),
            final(self).cache_view() == old(self).cache_view(),
            final(self).subs_view().len() == old(self).subs_view().len(),
            forall|i: int|
                #![trigger old(self).subs_view()[i]]
                0 <= i < old(self).subs_view().len() ==> if old(self).subs_view()[i].id_spec()
                    == id && stock_name@.len() > 0 && is_subscribed_to(
                    old(self).subs_view()[i],
                    stock_name@,
                ) {
                    final(self).subs_view()[i].id_spec() == id && final(self).subs_view()[i].queue_view() == old(self).subs_view()[i].queue_view()
                        && final(self).subs_view()[i].sub_spec() is None
                } else {
                    final(self).subs_view()[i] == old(self).subs_view()[i]
                },
    {
        if stock_name.as_str().is_empty() {
            return ;
        }
        match self.find_by_id(id) {
            None => {},
            Some(i) => {
                let ghost before = self.subscribers@;
                let mut sub = self.subscribers.remove(i);
                let matched: bool = match &sub.subscription {
                    None => false,
                    Some(SubscriptionTarget::Aggregate) => {
                        let df = String::from_str("DataFeed");
                        *stock_name == df
                    },
                    Some(SubscriptionTarget::Stock(nm)) => *nm == *stock_name,
                };
                proof {
                    assert(matched == is_subscribed_to(before[i as int], stock_name@));
                }
                if matched {
                    sub.subscription = None;
                }
                self.subscribers.insert(i, sub);
                proof {
                    assert(self.subscribers@ =~= before.update(i as int, sub));
                }
            },
        }
    }

    /// Subscribes the subscriber to one symbol or to the aggregate feed.
    /// An untracked symbol or an unknown id is rejected with no state
    /// change (a prior subscription survives). On success the previous
    /// subscription is replaced and the outbound queue is reseeded with
    /// the full history snapshot, discarding any undelivered backlog.
    pub fn add_stock_subscription(&mut self, id: usize, stock_name: &String) -> (r: Result<
        (),
        SubscriptionError,
    >)
        requires
            old(self).well_formed(),
        ensures
            final(self).well_formed(),
            final(self).next_id() == old(self).next_id(),
            final(self).cache_view() == old(self).cache_view(),
            r == Err::<(), SubscriptionError>(SubscriptionError::UnknownSymbol) <==> stock_name@
                != aggregate_name() && !old(self).cache_view().has_symbol(stock_name@),
            r == Err::<(), SubscriptionError>(SubscriptionError::UnknownSubscriber) <==> (
            stock_name@ == aggregate_name() || old(self).cache_view().has_symbol(stock_name@))
                && !has_sub_id(old(self).subs_view(), id),
            r is Err ==> final(self).subs_view() == old(self).subs_view(),
            r is Ok ==> final(self).subs_view().len() == old(self).subs_view().len() && exists|
                i: int,
            |
                #![trigger old(self).subs_view()[i]]
                0 <= i < old(self).subs_view().len() && old(self).subs_view()[i].id_spec() == id
                    && (forall|j: int|
                    0 <= j < old(self).subs_view().len() && j != i ==> final(self).subs_view()[j]
                        == old(self).subs_view()[j]) && final(self).subs_view()[i].id_spec() == id
                    && (if stock_name@ == aggregate_name() {
                    final(self).subs_view()[i].sub_spec() matches Some(
                        SubscriptionTarget::Aggregate,
                    ) && final(self).subs_view()[i].queue_view() == old(self).cache_view().analysis_view().history_view() + seq![end_of_update()]
                } else {
                    (final(self).subs_view()[i].sub_spec() matches Some(
                        SubscriptionTarget::Stock(nm),
                    ) && nm@ == stock_name@) && exists|k: int|
                        0 <= k < old(self).cache_view().symbols().len() && #[trigger] old(self).cache_view().symbols()[k]@ == stock_name@ && final(self).subs_view()[i].queue_view() == snapshot_of(
                            old(self).cache_view().series()[k],
                        ) + seq![end_of_update()]
                }),
    {
        let df = String::from_str("DataFeed");
        let is_agg = *stock_name == df;
        if !is_agg && !self.stock_cache.has_key(stock_name) {
            return Err(SubscriptionError::UnknownSymbol);
        }
        let idx = match self.find_by_id(id) {
            Some(i) => i,
            None => {
                return Err(SubscriptionError::UnknownSubscriber);
            },
        };
        let seeded: Vec<String> = if is_agg {
            self.stock_cache.get_history()
        } else {
            self.stock_cache.get_vec_of_stock(stock_name)
        };
        let target = if is_agg {
            SubscriptionTarget::Aggregate
        } else {
            SubscriptionTarget::Stock(stock_name.clone())
        };
        let ghost before = self.subscribers@;
        let mut sub = self.subscribers.remove(idx);
        sub.subscription = Some(target);
        sub.queue = seeded;
        self.subscribers.insert(idx, sub);
        proof {
            assert(self.subscribers@ =~= before.update(idx as int, sub));
            assert(old(self).subs_view()[idx as int].id_spec() == id);
            assert(self.subscribers@[idx as int] == sub);
            assert(forall|j: int|
                0 <= j < before.len() && j != idx ==> self.subscribers@[j] == before[j]);
            if is_agg {
                assert(sub.queue_view() == old(self).cache_view().analysis_view().history_view()
                    + seq![end_of_update()]);
            } else {
                let syms = old(self).cache_view().symbols();
                let k0 = choose|k: int|
                    0 <= k < syms.len() && #[trigger] syms[k]@ == stock_name@
                        && seeded.deep_view() == snapshot_of(
                        old(self).cache_view().series()[k],
                    ) + seq![end_of_update()];
                assert(syms[k0]@ == stock_name@);
                assert(sub.queue_view() == snapshot_of(old(self).cache_view().series()[k0])
                    + seq![end_of_update()]);
            }
        }
        Ok(())
    }

    /// The id the next subscriber would receive.
    pub fn peek_next_id(&self) -> (r: usize)
        ensures
            r == self.next_id(),
    {
        self.current_id
    }

    /// Registers a new subscriber: a fresh, never-reused id with an empty
    /// queue and no subscription.
    pub fn add_subscriber(&mut self) -> (r: usize)
        requires
            old(self).well_formed(),
            old(self).next_id() < usize::MAX,
        ensures
            final(self).well_formed(),
            r == old(self).next_id(),
            final(self).next_id() == old(self).next_id() + 1,
            final(self).cache_view() == old(self).cache_view(),
            final(self).subs_view().len() == old(self).subs_view().len() + 1,
            forall|j: int|
                0 <= j < old(self).subs_view().len() ==> #[trigger] final(self).subs_view()[j]
                    == old(self).subs_view()[j],
            final(self).subs_view().last().id_spec() == r,
            final(self).subs_view().last().queue_view() == Seq::<Seq<char>>::empty(),
            final(self).subs_view().last().sub_spec() is None,
    {
        let id = self.current_id;
        self.current_id = self.current_id + 1;
        let sub = Subscriber { id, queue: Vec::new(), subscription: None };
        self.subscribers.push(sub);
        proof {
            assert(sub.queue_view() =~= Seq::<Seq<char>>::empty());
        }
        id
    }

    /// Tears the subscriber down: the entry and its queue are deleted,
    /// and with them any subscription. Unknown ids change nothing, so
    /// teardown may be invoked any number of times.
    pub fn remove_subscriber(&mut self, id: usize)
        requires
            old(self).well_formed(),
        ensures
            final(self).well_formed(),
            final(self).next_id() == old(self).next_id(),
            final(self).cache_view() == old(self).cache_view(),
            !has_sub_id(old(self).subs_view(), id) ==> final(self).subs_view() == old(self).subs_view(),
            has_sub_id(old(self).subs_view(), id) ==> exists|i: int|
                #![trigger old(self).subs_view()[i]]
                0 <= i < old(self).subs_view().len() && old(self).subs_view()[i].id_spec() == id
                    && final(self).subs_view() == old(self).subs_view().remove(i),
    {
        match self.find_by_id(id) {
            None => {},
            Some(i) => {
                let ghost before = self.subscribers@;
                let _ = self.subscribers.remove(i);
                proof {
                    assert(has_sub_id(old(self).subs_view(), id));
                    assert(self.subscribers@ =~= before.remove(i as int));
                }
            },
        }
    }

    /// Closes the aggregate period: renders the aggregate message,
    /// resets the counters, appends the message to the aggregate
    /// history, and publishes it to every aggregate-feed subscriber
    /// under the backpressure policy.
    pub fn sync_data_events(&mut self)
        requires
            old(self).well_formed(),
        ensures
            final(self).well_formed(),
            final(self).next_id() == old(self).next_id(),
            final(self).subs_view().len() == old(self).subs_view().len(),
            final(self).cache_view().symbols() == old(self).cache_view().symbols(),
            final(self).cache_view().series() == old(self).cache_view().series(),
            final(self).cache_view().analysis_view().trades_spec() == 0,
            final(self).cache_view().analysis_view().volume_spec() == 0,
            final(self).cache_view().analysis_view().market_value_spec() == 0,
            final(self).cache_view().analysis_view().history_view() == history_push(
                old(self).cache_view().analysis_view().history_view(),
                sync_message(old(self).cache_view()),
            ),
            forall|i: int|
                #![trigger old(self).subs_view()[i]]
                0 <= i < old(self).subs_view().len() ==> if is_subscribed_to(
                    old(self).subs_view()[i],
                    aggregate_name(),
                ) {
                    event_added(
                        old(self).subs_view()[i],
                        final(self).subs_view()[i],
                        sync_message(old(self).cache_view()),
                    )
                } else {
                    final(self).subs_view()[i] == old(self).subs_view()[i]
                },
    {
        let msg = self.stock_cache.retrieve_data_events();
        let ghost cache_after = self.stock_cache;
        let n = self.subscribers.len();
        let mut i: usize = 0;
        while i < n
            invariant
                i <= n,
                n == self.subscribers@.len(),
                self.well_formed(),
                self.current_id == old(self).next_id(),
                self.stock_cache == cache_after,
                msg@ == sync_message(old(self).cache_view()),
                forall|k: int| i <= k < n ==> self.subscribers@[k] == old(self).subs_view()[k],
                forall|k: int|
                    #![trigger old(self).subs_view()[k]]
                    0 <= k < i ==> if is_subscribed_to(
                        old(self).subs_view()[k],
                        aggregate_name(),
                    ) {
                        event_added(old(self).subs_view()[k], self.subscribers@[k], msg@)
                    } else {
                        self.subscribers@[k] == old(self).subs_view()[k]
                    },
            decreases n - i,
        {
            let matched: bool = match &self.subscribers[i].subscription {
                Some(SubscriptionTarget::Aggregate) => true,
                _ => false,
            };
            proof {
                assert(matched == is_subscribed_to(self.subscribers@[i as int], aggregate_name()));
            }
            if matched {
                let ghost before = self.subscribers@;
                let mut sub = self.subscribers.remove(i);
                let ghost q0 = sub.queue.deep_view();
                if sub.queue.len() < QUEUE_CAP {
                    sub.queue.push(msg.clone());
                    proof {
                        assert(sub.queue.deep_view() =~= q0.push(msg@));
                    }
                }
                self.subscribers.insert(i, sub);
                proof {
                    assert(self.subscribers@ =~= before.update(i as int, sub));
                    assert(event_added(before[i as int], sub, msg@));
                }
            }
            i = i + 1;
        }
    }
}

/// Members of the subscriber-id list for a name are exactly the
/// subscribers of that name.
proof fn lemma_subscriber_ids_members(s: Seq<Subscriber>, name: Seq<char>, id: usize)
    ensures
        subscriber_ids(s, name).contains(id) <==> exists|j: int|
            0 <= j < s.len() && (#[trigger] s[j]).id_spec() == id && is_subscribed_to(
                s[j],
                name,
            ),
    decreases s.len(),
{
    if s.len() == 0 {
    } else {
        lemma_subscriber_ids_members(s.drop_last(), name, id);
        let rest = subscriber_ids(s.drop_last(), name);
        let ids = subscriber_ids(s, name);
        if is_subscribed_to(s.last(), name) {
            assert(ids == rest.push(s.last().id_spec()));
            if ids.contains(id) {
                let k = choose|k: int| 0 <= k < ids.len() && ids[k] == id;
                if k < rest.len() {
                    assert(rest[k] == id);
                    assert(rest.contains(id));
                    let j0 = choose|j: int|
                        0 <= j < s.drop_last().len() && (#[trigger] s.drop_last()[j]).id_spec()
                            == id && is_subscribed_to(s.drop_last()[j], name);
                    assert(s[j0] == s.drop_last()[j0]);
                } else {
                    assert(s.last().id_spec() == id);
                    assert(s[s.len() - 1] == s.last());
                }
            }
            if exists|j: int|
                0 <= j < s.len() && (#[trigger] s[j]).id_spec() == id && is_subscribed_to(
                    s[j],
                    name,
                ) {
                let j0 = choose|j: int|
                    0 <= j < s.len() && (#[trigger] s[j]).id_spec() == id && is_subscribed_to(
                        s[j],
                        name,
                    );
                if j0 == s.len() - 1 {
                    assert(ids[ids.len() - 1] == id);
                    assert(ids.contains(id));
                } else {
                    assert(s.drop_last()[j0] == s[j0]);
                    assert(rest.contains(id));
                    let k = choose|k: int| 0 <= k < rest.len() && rest[k] == id;
                    assert(ids[k] == id);
                    assert(ids.contains(id));
                }
            }
        } else {
            assert(ids == rest);
            if ids.contains(id) {
                let j0 = choose|j: int|
                    0 <= j < s.drop_last().len() && (#[trigger] s.drop_last()[j]).id_spec() == id
                        && is_subscribed_to(s.drop_last()[j], name);
                assert(s[j0] == s.drop_last()[j0]);
            }
            if exists|j: int|
                0 <= j < s.len() && (#[trigger] s[j]).id_spec() == id && is_subscribed_to(
                    s[j],
                    name,
                ) {
                let j0 = choose|j: int|
                    0 <= j < s.len() && (#[trigger] s[j]).id_spec() == id && is_subscribed_to(
                        s[j],
                        name,
                    );
                assert(j0 != s.len() - 1);
                assert(s.drop_last()[j0] == s[j0]);
                assert(rest.contains(id));
            }
        }
    }
}

/// Law: a subscriber that is not subscribed to a name is absent from
/// that name's fan-out list, so publishing to the name cannot touch its
/// queue. In particular, after subscribe-then-unsubscribe of the same
/// name the subscriber's queue stays out of that symbol's deliveries.
pub proof fn lemma_unsubscribed_receives_nothing(cs: ConnectionService, i: int, name: Seq<char>)
    requires
        cs.well_formed(),
        0 <= i < cs.subs_view().len(),
        !is_subscribed_to(cs.subs_view()[i], name),
    ensures
        !subscriber_ids(cs.subs_view(), name).contains(cs.subs_view()[i].id_spec()),
{
    let s = cs.subs_view();
    let id = s[i].id_spec();
    lemma_subscriber_ids_members(s, name, id);
    if subscriber_ids(s, name).contains(id) {
        let j = choose|j: int|
            0 <= j < s.len() && (#[trigger] s[j]).id_spec() == id && is_subscribed_to(
                s[j],
                name,
            );
        if j < i {
            assert(s[j].id_spec() < s[i].id_spec());
        } else if j > i {
            assert(s[i].id_spec() < s[j].id_spec());
        }
        assert(false);
    }
}

} // verus!
