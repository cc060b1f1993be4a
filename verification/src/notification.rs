//! The notification dispatcher: fan-out of unsolicited envelopes and of
//! disconnect events to whoever subscribed to them.
//!
//! The dispatcher keeps the register of subscriptions and decides who gets a
//! copy. The sinks themselves belong to the subscribers and are found by the
//! subscription's id.

use crate::conn::ConnectionId;
use crate::proto::{Envelope, EnvelopeView, MessageKind};
use vstd::prelude::*;

verus! {

/// Names a subscription. Never handed out twice by one dispatcher.
#[derive(Clone, Copy, Debug, PartialEq, Eq, Hash, Structural)]
pub struct SubscriptionId(pub u64);

/// An interest in one message kind, on one connection or on all.
#[derive(Clone, Copy, Debug, PartialEq, Eq, Structural)]
pub struct Subscription {
    pub id: SubscriptionId,
    pub kind: MessageKind,
    /// `None` observes every connection.
    pub connection: Option<ConnectionId>,
}

impl Subscription {
    /// Whether the subscription observes `connection`.
    pub open spec fn spec_watches(self, connection: ConnectionId) -> bool {
        match self.connection {
            Some(c) => c == connection,
            None => true,
        }
    }

    /// Whether the subscription observes `connection` and, where a kind is
    /// given, was made for that kind.
    pub open spec fn spec_selected_by(
        self,
        connection: ConnectionId,
        kind: Option<MessageKind>,
    ) -> bool {
        self.spec_watches(connection) && match kind {
            Some(k) => self.kind == k,
            None => true,
        }
    }

    /// Whether the subscription observes `connection`.
    #[verifier::when_used_as_spec(spec_watches)]
    pub fn watches(self, connection: ConnectionId) -> (watches: bool)
        ensures
            watches == self.spec_watches(connection),
    {
        match self.connection {
            Some(c) => c == connection,
            None => true,
        }
    }

    /// Whether the subscription observes `connection` and, where a kind is
    /// given, was made for that kind.
    #[verifier::when_used_as_spec(spec_selected_by)]
    pub fn selected_by(self, connection: ConnectionId, kind: Option<MessageKind>) -> (selected:
        bool)
        ensures
            selected == self.spec_selected_by(connection, kind),
    {
        self.watches(connection) && match kind {
            Some(k) => self.kind == k,
            None => true,
        }
    }
}

/// The test that [`selected`] filters by.
pub open spec fn selector(connection: ConnectionId, kind: Option<MessageKind>) -> spec_fn(
    Subscription,
) -> bool {
    |s: Subscription| s.spec_selected_by(connection, kind)
}

/// The ids of a run of subscriptions, in order.
pub open spec fn ids_of(subscriptions: Seq<Subscription>) -> Seq<SubscriptionId> {
    subscriptions.map_values(|s: Subscription| s.id)
}

/// The ids of the subscriptions that observe `connection` and, where a kind
/// is given, were made for that kind, in the order they were registered.
pub open spec fn selected(
    subscriptions: Seq<Subscription>,
    connection: ConnectionId,
    kind: Option<MessageKind>,
) -> Seq<SubscriptionId> {
    ids_of(subscriptions.filter(selector(connection, kind)))
}

/// Who gets a copy of an envelope that arrived on `connection`: nobody where
/// it answers a request, else every subscription for its kind that observes
/// the connection.
pub open spec fn recipients(
    subscriptions: Seq<Subscription>,
    connection: ConnectionId,
    envelope: EnvelopeView,
) -> Seq<SubscriptionId> {
    if envelope.is_reply() {
        Seq::empty()
    } else {
        selected(subscriptions, connection, Some(envelope.payload.kind()))
    }
}

/// Where the subscription with this id stands in the register, if it is there.
pub open spec fn slot_of(subscriptions: Seq<Subscription>, id: SubscriptionId) -> Option<int> {
    if exists|i: int| 0 <= i < subscriptions.len() && (#[trigger] subscriptions[i]).id == id {
        Some(choose|i: int| 0 <= i < subscriptions.len() && (#[trigger] subscriptions[i]).id == id)
    } else {
        None
    }
}

/// No two subscriptions share an id.
pub open spec fn ids_distinct(subscriptions: Seq<Subscription>) -> bool {
    forall|i: int, j: int|
        0 <= i < j < subscriptions.len() ==> (#[trigger] subscriptions[i]).id != (
        #[trigger] subscriptions[j]).id
}

/// Whether some subscription with this id observes the connection and,
/// where a kind is given, was made for that kind.
pub open spec fn selects(
    subscriptions: Seq<Subscription>,
    connection: ConnectionId,
    kind: Option<MessageKind>,
    id: SubscriptionId,
) -> bool {
    exists|i: int|
        0 <= i < subscriptions.len() && (#[trigger] subscriptions[i]).id == id
            && subscriptions[i].spec_selected_by(connection, kind)
}

/// Fan-out reaches every interested subscription exactly once: an id is
/// among those selected exactly if a subscription with that id observes the
/// connection and the kind, and no id is selected twice.
pub proof fn lemma_fan_out_exactly_once(
    subscriptions: Seq<Subscription>,
    connection: ConnectionId,
    kind: Option<MessageKind>,
)
    requires
        ids_distinct(subscriptions),
    ensures
        selected(subscriptions, connection, kind).no_duplicates(),
        forall|id: SubscriptionId| #[trigger]
            selected(subscriptions, connection, kind).contains(id) <==> selects(
                subscriptions,
                connection,
                kind,
                id,
            ),
    decreases subscriptions.len(),
{
    let all = selected(subscriptions, connection, kind);
    if subscriptions.len() == 0 {
        reveal(Seq::filter);
        assert(all.len() == 0);
    } else {
        let init = subscriptions.drop_last();
        let last = subscriptions.last();
        let before = selected(init, connection, kind);
        let taken = last.spec_selected_by(connection, kind);
        lemma_fan_out_exactly_once(init, connection, kind);
        init.lemma_filter_push(last, selector(connection, kind));
        assert(subscriptions =~= init.push(last));
        if taken {
            assert(all =~= before.push(last.id));
        } else {
            assert(all =~= before);
        }
        assert forall|id: SubscriptionId| #[trigger] all.contains(id) implies selects(
            subscriptions,
            connection,
            kind,
            id,
        ) by {
            let k = choose|k: int| 0 <= k < all.len() && all[k] == id;
            if k < before.len() {
                assert(before[k] == id);
                assert(before.contains(id));
                let i = choose|i: int|
                    0 <= i < init.len() && (#[trigger] init[i]).id == id
                        && init[i].spec_selected_by(connection, kind);
                assert(subscriptions[i].id == id);
            } else {
                assert(subscriptions[subscriptions.len() - 1].id == id);
            }
        }
        assert forall|id: SubscriptionId|
            selects(subscriptions, connection, kind, id) implies #[trigger] all.contains(id) by {
            let i = choose|i: int|
                0 <= i < subscriptions.len() && (#[trigger] subscriptions[i]).id == id
                    && subscriptions[i].spec_selected_by(connection, kind);
            if i < init.len() {
                assert(init[i].id == id);
                assert(selects(init, connection, kind, id));
                assert(before.contains(id));
                let k = choose|k: int| 0 <= k < before.len() && before[k] == id;
                assert(all[k] == id);
            } else {
                assert(all[all.len() - 1] == id);
            }
        }
        assert forall|a: int, b: int| 0 <= a < b < all.len() implies all[a] != all[b] by {
            if b < before.len() {
                assert(before[a] != before[b]);
            } else {
                assert(before[a] == all[a]);
                assert(before.contains(all[a]));
                let i = choose|i: int|
                    0 <= i < init.len() && (#[trigger] init[i]).id == all[a]
                        && init[i].spec_selected_by(connection, kind);
                assert(subscriptions[i].id != subscriptions[subscriptions.len() - 1].id);
            }
        }
    }
}

/// The mathematical value of a [`Dispatcher`].
#[verifier::ext_equal]
pub struct DispatcherView {
    /// The subscriptions, in the order they were registered.
    pub subscriptions: Seq<Subscription>,
    /// The id that the next subscription gets.
    pub next_id: u64,
}

impl DispatcherView {
    /// Every id in the register was handed out before `next_id`, and none twice.
    pub open spec fn wf(self) -> bool {
        &&& forall|i: int|
            0 <= i < self.subscriptions.len() ==> (#[trigger] self.subscriptions[i]).id.0
                < self.next_id
        &&& ids_distinct(self.subscriptions)
    }
}

/// The register of subscriptions.
#[derive(Debug)]
pub struct Dispatcher {
    subscriptions: Vec<Subscription>,
    next_id: u64,
}

impl View for Dispatcher {
    type V = DispatcherView;

    closed spec fn view(&self) -> DispatcherView {
        DispatcherView { subscriptions: self.subscriptions@, next_id: self.next_id }
    }
}

impl Dispatcher {
    /// See [`DispatcherView::wf`].
    pub open spec fn wf(&self) -> bool {
        self@.wf()
    }

    /// A dispatcher without subscriptions.
    pub fn new() -> (dispatcher: Dispatcher)
        ensures
            dispatcher.wf(),
            dispatcher@.subscriptions == Seq::<Subscription>::empty(),
            dispatcher@.next_id == 0,
    {
        Dispatcher { subscriptions: Vec::new(), next_id: 0 }
    }

    /// How many subscriptions are registered.
    pub fn len(&self) -> (len: usize)
        ensures
            len == self@.subscriptions.len(),
    {
        self.subscriptions.len()
    }

    /// Registers an interest in `kind`, on one connection or on all, and
    /// returns its id. `None`, and nothing registered, once all ids are used up.
    pub fn subscribe(&mut self, kind: MessageKind, connection: Option<ConnectionId>) -> (id:
        Option<SubscriptionId>)
        requires
            old(self).wf(),
        ensures
            final(self).wf(),
            old(self)@.next_id == u64::MAX ==> id is None && final(self)@ == old(self)@,
            old(self)@.next_id < u64::MAX ==> {
                &&& id == Some(SubscriptionId(old(self)@.next_id))
                &&& final(self)@.next_id == old(self)@.next_id + 1
                &&& final(self)@.subscriptions == old(self)@.subscriptions.push(
                    Subscription { id: id->0, kind, connection },
                )
            },
    {
        if self.next_id == u64::MAX {
            return None;
        }
        let id = SubscriptionId(self.next_id);
        self.subscriptions.push(Subscription { id, kind, connection });
        self.next_id = self.next_id + 1;
        Some(id)
    }

    /// Removes the subscription with this id. Returns whether there was one.
    pub fn unsubscribe(&mut self, id: SubscriptionId) -> (removed: bool)
        requires
            old(self).wf(),
        ensures
            final(self).wf(),
            final(self)@.next_id == old(self)@.next_id,
            removed == (slot_of(old(self)@.subscriptions, id) is Some),
            final(self)@.subscriptions == match slot_of(old(self)@.subscriptions, id) {
                Some(i) => old(self)@.subscriptions.remove(i),
                None => old(self)@.subscriptions,
            },
    {
        let mut i: usize = 0;
        while i < self.subscriptions.len()
            invariant
                i <= self.subscriptions@.len(),
                self.wf(),
                self.subscriptions@ == old(self).subscriptions@,
                self.next_id == old(self).next_id,
                forall|j: int| 0 <= j < i ==> (#[trigger] self.subscriptions@[j]).id != id,
            decreases self.subscriptions@.len() - i,
        {
            if self.subscriptions[i].id == id {
                proof {
                    let subs = self.subscriptions@;
                    assert(subs[i as int].id == id);
                    let chosen = slot_of(subs, id)->0;
                    assert(chosen == i) by {
                        if chosen < i {
                            assert(subs[chosen].id != subs[i as int].id);
                        } else if chosen > i {
                            assert(subs[i as int].id != subs[chosen].id);
                        }
                    }
                }
                self.subscriptions.remove(i);
                return true;
            }
            i = i + 1;
        }
        false
    }

    /// The ids selected by a connection and, where given, a kind.
    fn select(&self, connection: ConnectionId, kind: Option<MessageKind>) -> (ids: Vec<
        SubscriptionId,
    >)
        ensures
            ids@ == selected(self@.subscriptions, connection, kind),
    {
        let mut ids: Vec<SubscriptionId> = Vec::new();
        let mut i: usize = 0;
        proof {
            reveal(Seq::filter);
            assert(self.subscriptions@.take(0) =~= Seq::<Subscription>::empty());
            assert(selected(self.subscriptions@.take(0), connection, kind) =~= ids@);
        }
        while i < self.subscriptions.len()
            invariant
                i <= self.subscriptions@.len(),
                ids@ == selected(self.subscriptions@.take(i as int), connection, kind),
            decreases self.subscriptions@.len() - i,
        {
            let subscription = self.subscriptions[i];
            proof {
                let prefix = self.subscriptions@.take(i as int);
                assert(self.subscriptions@.take(i + 1) =~= prefix.push(subscription));
                prefix.lemma_filter_push(subscription, selector(connection, kind));
                let kept = prefix.filter(selector(connection, kind));
                assert(ids_of(kept.push(subscription)) =~= ids_of(kept).push(subscription.id));
            }
            if subscription.selected_by(connection, kind) {
                ids.push(subscription.id);
            }
            i = i + 1;
        }
        proof {
            assert(self.subscriptions@.take(i as int) =~= self.subscriptions@);
        }
        ids
    }

    /// Who gets a copy of an envelope that arrived on `connection`.
    ///
    /// An envelope that answers a request goes to nobody here: it belongs to
    /// the one waiter of that request. Any other goes to every subscription
    /// for its kind that observes the connection, each once, in the order
    /// they were registered.
    pub fn dispatch(&self, connection: ConnectionId, envelope: &Envelope) -> (ids: Vec<
        SubscriptionId,
    >)
        requires
            self.wf(),
        ensures
            ids@ == recipients(self@.subscriptions, connection, envelope@),
            ids@.no_duplicates(),
    {
        if envelope.is_reply() {
            Vec::new()
        } else {
            proof {
                lemma_fan_out_exactly_once(
                    self@.subscriptions,
                    connection,
                    Some(envelope@.payload.kind()),
                );
            }
            self.select(connection, Some(envelope.payload.kind()))
        }
    }

    /// Who is told that `connection` has closed: every subscription that
    /// observes it, whatever its kind, each once.
    pub fn disconnected(&self, connection: ConnectionId) -> (ids: Vec<SubscriptionId>)
        requires
            self.wf(),
        ensures
            ids@ == selected(self@.subscriptions, connection, None),
            ids@.no_duplicates(),
    {
        proof {
            lemma_fan_out_exactly_once(self@.subscriptions, connection, None);
        }
        self.select(connection, None)
    }
}

} // verus!
