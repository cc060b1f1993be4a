//! The table of outstanding requests: who waits for which response.
//!
//! A response is matched to its request by connection and id alone, never
//! by the order in which responses arrive. Each entry leaves the table
//! exactly once: when its response arrives, when its connection is lost, or
//! when its caller gives up.

use crate::conn::ConnectionId;
use crate::error::RpcError;
use vstd::prelude::*;

verus! {

/// Names the suspended caller of a request. Chosen by whoever registers the
/// request; the table only hands it back.
#[derive(Clone, Copy, Debug, PartialEq, Eq, Hash, Structural)]
pub struct WaiterId(pub u64);

/// A request that has been sent and not yet answered.
#[derive(Clone, Copy, Debug, PartialEq, Eq, Structural)]
pub struct PendingRequest {
    pub connection_id: ConnectionId,
    pub request_id: u32,
    pub waiter: WaiterId,
}

/// A request that ends without a response: who waited, and why in vain.
#[derive(Clone, Copy, Debug, PartialEq, Eq, Structural)]
pub struct Failure {
    pub waiter: WaiterId,
    pub error: RpcError,
}

impl PendingRequest {
    /// Whether this is the request with id `request_id` on `connection`.
    pub open spec fn has_key(self, connection: ConnectionId, request_id: u32) -> bool {
        self.connection_id == connection && self.request_id == request_id
    }
}

/// No two entries stand for the same request.
pub open spec fn keys_distinct(entries: Seq<PendingRequest>) -> bool {
    forall|i: int, j: int|
        0 <= i < j < entries.len() ==> !(#[trigger] entries[i]).has_key(
            (#[trigger] entries[j]).connection_id,
            entries[j].request_id,
        )
}

/// Where the entry for a request stands, if the request is outstanding.
pub open spec fn slot(entries: Seq<PendingRequest>, connection: ConnectionId, request_id: u32)
    -> Option<int> {
    if exists|i: int|
        0 <= i < entries.len() && (#[trigger] entries[i]).has_key(connection, request_id) {
        Some(
            choose|i: int|
                0 <= i < entries.len() && (#[trigger] entries[i]).has_key(connection, request_id),
        )
    } else {
        None
    }
}

/// Who waits for the response to a request, if the request is outstanding.
pub open spec fn waiter_of(
    entries: Seq<PendingRequest>,
    connection: ConnectionId,
    request_id: u32,
) -> Option<WaiterId> {
    match slot(entries, connection, request_id) {
        Some(i) => Some(entries[i].waiter),
        None => None,
    }
}

/// The table once a request has been resolved: its entry is gone, all
/// others stay where they were.
pub open spec fn without(entries: Seq<PendingRequest>, connection: ConnectionId, request_id: u32)
    -> Seq<PendingRequest> {
    match slot(entries, connection, request_id) {
        Some(i) => entries.remove(i),
        None => entries,
    }
}

/// The test for requests on `connection`.
pub open spec fn on_connection(connection: ConnectionId) -> spec_fn(PendingRequest) -> bool {
    |entry: PendingRequest| entry.connection_id == connection
}

/// The test for requests on any other connection than `connection`.
pub open spec fn off_connection(connection: ConnectionId) -> spec_fn(PendingRequest) -> bool {
    |entry: PendingRequest| entry.connection_id != connection
}

/// What the waiters of a run of entries are told when their connection is
/// lost: `ConnectionLost`, one each, in the order of the entries.
pub open spec fn connection_lost(entries: Seq<PendingRequest>) -> Seq<Failure> {
    entries.map_values(
        |entry: PendingRequest| Failure { waiter: entry.waiter, error: RpcError::ConnectionLost },
    )
}

/// The requests outstanding on `connection`, oldest first.
pub open spec fn outstanding_on(entries: Seq<PendingRequest>, connection: ConnectionId) -> Seq<
    PendingRequest,
> {
    entries.filter(on_connection(connection))
}

/// The table once `connection` is lost: its requests are gone, all others
/// stay in their order.
pub open spec fn surviving(entries: Seq<PendingRequest>, connection: ConnectionId) -> Seq<
    PendingRequest,
> {
    entries.filter(off_connection(connection))
}

/// With distinct keys, the entry for a request stands where any entry with
/// its key stands.
pub proof fn lemma_slot_is(
    entries: Seq<PendingRequest>,
    connection: ConnectionId,
    request_id: u32,
    i: int,
)
    requires
        keys_distinct(entries),
        0 <= i < entries.len(),
        entries[i].has_key(connection, request_id),
    ensures
        slot(entries, connection, request_id) == Some(i),
        waiter_of(entries, connection, request_id) == Some(entries[i].waiter),
        without(entries, connection, request_id) == entries.remove(i),
{
    let chosen = slot(entries, connection, request_id)->0;
    if chosen < i {
        assert(!entries[chosen].has_key(entries[i].connection_id, entries[i].request_id));
    } else if chosen > i {
        assert(!entries[i].has_key(entries[chosen].connection_id, entries[chosen].request_id));
    }
}

/// A request is outstanding exactly if some entry has its key, and then
/// `slot` points at such an entry.
pub proof fn lemma_slot_found(
    entries: Seq<PendingRequest>,
    connection: ConnectionId,
    request_id: u32,
)
    ensures
        slot(entries, connection, request_id) matches Some(i) ==> 0 <= i < entries.len()
            && entries[i].has_key(connection, request_id),
        slot(entries, connection, request_id) is None ==> forall|i: int|
            0 <= i < entries.len() ==> !(#[trigger] entries[i]).has_key(connection, request_id),
{
}

/// Removing one entry keeps the keys distinct.
pub proof fn lemma_remove_keeps_distinct(entries: Seq<PendingRequest>, i: int)
    requires
        keys_distinct(entries),
        0 <= i < entries.len(),
    ensures
        keys_distinct(entries.remove(i)),
{
    let rest = entries.remove(i);
    assert forall|a: int, b: int| 0 <= a < b < rest.len() implies !(#[trigger] rest[a]).has_key(
        (#[trigger] rest[b]).connection_id,
        rest[b].request_id,
    ) by {
        let a0 = if a < i {
            a
        } else {
            a + 1
        };
        let b0 = if b < i {
            b
        } else {
            b + 1
        };
        assert(rest[a] == entries[a0] && rest[b] == entries[b0]);
        assert(!entries[a0].has_key(entries[b0].connection_id, entries[b0].request_id));
    }
}

/// Correlation: once a request is registered under a fresh key, its
/// response finds exactly the waiter it was registered with, every other
/// request still finds its own waiter, and resolving it restores the table.
pub proof fn lemma_request_finds_its_waiter(
    entries: Seq<PendingRequest>,
    entry: PendingRequest,
    connection: ConnectionId,
    request_id: u32,
)
    requires
        keys_distinct(entries),
        waiter_of(entries, entry.connection_id, entry.request_id) is None,
    ensures
        keys_distinct(entries.push(entry)),
        waiter_of(entries.push(entry), entry.connection_id, entry.request_id) == Some(
            entry.waiter,
        ),
        without(entries.push(entry), entry.connection_id, entry.request_id) == entries,
        !entry.has_key(connection, request_id) ==> waiter_of(
            entries.push(entry),
            connection,
            request_id,
        ) == waiter_of(entries, connection, request_id),
{
    let after = entries.push(entry);
    lemma_slot_found(entries, entry.connection_id, entry.request_id);
    assert forall|a: int, b: int| 0 <= a < b < after.len() implies !(#[trigger] after[a]).has_key(
        (#[trigger] after[b]).connection_id,
        after[b].request_id,
    ) by {
        if b < entries.len() {
            assert(!entries[a].has_key(entries[b].connection_id, entries[b].request_id));
        } else {
            assert(!entries[a].has_key(entry.connection_id, entry.request_id));
        }
    }
    lemma_slot_is(after, entry.connection_id, entry.request_id, entries.len() as int);
    assert(after.remove(entries.len() as int) =~= entries);
    if !entry.has_key(connection, request_id) {
        lemma_slot_found(entries, connection, request_id);
        lemma_slot_found(after, connection, request_id);
        match slot(entries, connection, request_id) {
            Some(i) => {
                assert(after[i].has_key(connection, request_id));
                lemma_slot_is(after, connection, request_id, i);
            },
            None => {
                if let Some(j) = slot(after, connection, request_id) {
                    assert(j < entries.len());
                    assert(entries[j].has_key(connection, request_id));
                }
            },
        }
    }
}

/// A request is resolved once: after its entry is gone, another response
/// with the same id finds no waiter.
pub proof fn lemma_resolved_once(
    entries: Seq<PendingRequest>,
    connection: ConnectionId,
    request_id: u32,
)
    requires
        keys_distinct(entries),
    ensures
        keys_distinct(without(entries, connection, request_id)),
        waiter_of(without(entries, connection, request_id), connection, request_id) is None,
{
    lemma_slot_found(entries, connection, request_id);
    let rest = without(entries, connection, request_id);
    if let Some(i) = slot(entries, connection, request_id) {
        lemma_remove_keeps_distinct(entries, i);
        lemma_slot_found(rest, connection, request_id);
        if let Some(k) = slot(rest, connection, request_id) {
            let k0 = if k < i {
                k
            } else {
                k + 1
            };
            assert(rest[k] == entries[k0]);
            lemma_slot_is(entries, connection, request_id, k0);
        }
    }
}

/// Resolving one request does not disturb another: that one still finds the
/// waiter it had, whichever of the two is resolved first, and the table
/// ends up the same either way.
pub proof fn lemma_responses_in_any_order(
    entries: Seq<PendingRequest>,
    first_connection: ConnectionId,
    first_id: u32,
    second_connection: ConnectionId,
    second_id: u32,
)
    requires
        keys_distinct(entries),
        !(first_connection == second_connection && first_id == second_id),
    ensures
        waiter_of(
            without(entries, first_connection, first_id),
            second_connection,
            second_id,
        ) == waiter_of(entries, second_connection, second_id),
        waiter_of(
            without(entries, second_connection, second_id),
            first_connection,
            first_id,
        ) == waiter_of(entries, first_connection, first_id),
        without(
            without(entries, first_connection, first_id),
            second_connection,
            second_id,
        ) == without(
            without(entries, second_connection, second_id),
            first_connection,
            first_id,
        ),
{
    lemma_other_request_undisturbed(
        entries,
        first_connection,
        first_id,
        second_connection,
        second_id,
    );
    lemma_other_request_undisturbed(
        entries,
        second_connection,
        second_id,
        first_connection,
        first_id,
    );
    lemma_resolution_commutes(
        entries,
        first_connection,
        first_id,
        second_connection,
        second_id,
    );
}

/// Taking two entries out gives the same whichever goes first.
proof fn lemma_remove_commutes(entries: Seq<PendingRequest>, i: int, j: int)
    requires
        0 <= i < j < entries.len(),
    ensures
        entries.remove(i).remove(j - 1) == entries.remove(j).remove(i),
{
    let a = entries.remove(i).remove(j - 1);
    let b = entries.remove(j).remove(i);
    assert(a.len() == b.len());
    assert forall|k: int| 0 <= k < a.len() implies a[k] == b[k] by {
        if k < i {
            assert(a[k] == entries[k]);
            assert(b[k] == entries[k]);
        } else if k < j - 1 {
            assert(a[k] == entries[k + 1]);
            assert(b[k] == entries[k + 1]);
        } else {
            assert(a[k] == entries[k + 2]);
            assert(b[k] == entries[k + 2]);
        }
    }
    assert(a =~= b);
}

/// Resolving two requests gives the same table whichever is resolved first.
proof fn lemma_resolution_commutes(
    entries: Seq<PendingRequest>,
    first_connection: ConnectionId,
    first_id: u32,
    second_connection: ConnectionId,
    second_id: u32,
)
    requires
        keys_distinct(entries),
        !(first_connection == second_connection && first_id == second_id),
    ensures
        without(
            without(entries, first_connection, first_id),
            second_connection,
            second_id,
        ) == without(
            without(entries, second_connection, second_id),
            first_connection,
            first_id,
        ),
{
    lemma_slot_found(entries, first_connection, first_id);
    lemma_slot_found(entries, second_connection, second_id);
    let a = without(entries, first_connection, first_id);
    let b = without(entries, second_connection, second_id);
    match (
        slot(entries, first_connection, first_id),
        slot(entries, second_connection, second_id),
    ) {
        (Some(i), Some(j)) => {
            lemma_remove_keeps_distinct(entries, i);
            lemma_remove_keeps_distinct(entries, j);
            if i < j {
                assert(a[j - 1] == entries[j]);
                assert(b[i] == entries[i]);
                lemma_slot_is(a, second_connection, second_id, j - 1);
                lemma_slot_is(b, first_connection, first_id, i);
                lemma_remove_commutes(entries, i, j);
            } else {
                assert(a[j] == entries[j]);
                assert(b[i - 1] == entries[i]);
                lemma_slot_is(a, second_connection, second_id, j);
                lemma_slot_is(b, first_connection, first_id, i - 1);
                lemma_remove_commutes(entries, j, i);
            }
        },
        (Some(i), None) => {
            lemma_other_request_undisturbed(
                entries,
                first_connection,
                first_id,
                second_connection,
                second_id,
            );
        },
        (None, Some(j)) => {
            lemma_other_request_undisturbed(
                entries,
                second_connection,
                second_id,
                first_connection,
                first_id,
            );
        },
        (None, None) => {},
    }
}

/// Resolving one request leaves the waiter of any other request in place.
proof fn lemma_other_request_undisturbed(
    entries: Seq<PendingRequest>,
    gone_connection: ConnectionId,
    gone_id: u32,
    connection: ConnectionId,
    request_id: u32,
)
    requires
        keys_distinct(entries),
        !(gone_connection == connection && gone_id == request_id),
    ensures
        waiter_of(without(entries, gone_connection, gone_id), connection, request_id) == waiter_of(
            entries,
            connection,
            request_id,
        ),
        slot(entries, connection, request_id) is Some == slot(
            without(entries, gone_connection, gone_id),
            connection,
            request_id,
        ) is Some,
{
    lemma_slot_found(entries, gone_connection, gone_id);
    lemma_slot_found(entries, connection, request_id);
    if let Some(i) = slot(entries, gone_connection, gone_id) {
        let rest = entries.remove(i);
        lemma_remove_keeps_distinct(entries, i);
        lemma_slot_found(rest, connection, request_id);
        match slot(entries, connection, request_id) {
            Some(j) => {
                let j1 = if j < i {
                    j
                } else {
                    j - 1
                };
                assert(rest[j1] == entries[j]);
                lemma_slot_is(rest, connection, request_id, j1);
            },
            None => {
                if let Some(k) = slot(rest, connection, request_id) {
                    let k0 = if k < i {
                        k
                    } else {
                        k + 1
                    };
                    assert(rest[k] == entries[k0]);
                    assert(entries[k0].has_key(connection, request_id));
                }
            },
        }
    }
}

/// What a filter keeps: exactly the entries that pass the test, without
/// new duplicates of a key.
proof fn lemma_filter_entries(entries: Seq<PendingRequest>, test: spec_fn(PendingRequest) -> bool)
    ensures
        forall|entry: PendingRequest| #[trigger]
            entries.filter(test).contains(entry) <==> entries.contains(entry) && test(entry),
        keys_distinct(entries) ==> keys_distinct(entries.filter(test)),
    decreases entries.len(),
{
    let kept = entries.filter(test);
    if entries.len() == 0 {
        reveal(Seq::filter);
        assert(kept.len() == 0);
    } else {
        let init = entries.drop_last();
        let last = entries.last();
        let before = init.filter(test);
        lemma_filter_entries(init, test);
        init.lemma_filter_push(last, test);
        assert(entries =~= init.push(last));
        if test(last) {
            assert(kept =~= before.push(last));
        } else {
            assert(kept =~= before);
        }
        assert forall|entry: PendingRequest| #[trigger] kept.contains(entry) implies entries.contains(
            entry,
        ) && test(entry) by {
            let k = choose|k: int| 0 <= k < kept.len() && kept[k] == entry;
            if k < before.len() {
                assert(before[k] == entry);
                assert(before.contains(entry));
                let i = choose|i: int| 0 <= i < init.len() && init[i] == entry;
                assert(entries[i] == entry);
            } else {
                assert(entries[entries.len() - 1] == entry);
            }
        }
        assert forall|entry: PendingRequest| entries.contains(entry) && test(entry) implies #[trigger]
            kept.contains(entry) by {
            let i = choose|i: int| 0 <= i < entries.len() && entries[i] == entry;
            if i < init.len() {
                assert(init[i] == entry);
                assert(init.contains(entry));
                assert(before.contains(entry));
                let k = choose|k: int| 0 <= k < before.len() && before[k] == entry;
                assert(kept[k] == entry);
            } else {
                assert(kept[kept.len() - 1] == entry);
            }
        }
        if keys_distinct(entries) {
            assert(keys_distinct(init)) by {
                assert forall|a: int, b: int| 0 <= a < b < init.len() implies !(
                #[trigger] init[a]).has_key((#[trigger] init[b]).connection_id, init[b].request_id) by {
                    assert(!entries[a].has_key(entries[b].connection_id, entries[b].request_id));
                }
            }
            assert forall|a: int, b: int| 0 <= a < b < kept.len() implies !(
            #[trigger] kept[a]).has_key((#[trigger] kept[b]).connection_id, kept[b].request_id) by {
                if b < before.len() {
                    assert(!before[a].has_key(before[b].connection_id, before[b].request_id));
                } else {
                    assert(before[a] == kept[a]);
                    assert(before.contains(kept[a]));
                    let i = choose|i: int| 0 <= i < init.len() && init[i] == kept[a];
                    assert(!entries[i].has_key(
                        entries[entries.len() - 1].connection_id,
                        entries[entries.len() - 1].request_id,
                    ));
                }
            }
        }
    }
}

/// Losing a connection resolves exactly its requests: every one of them is
/// among the lost, nothing on that connection is left in the table, and
/// the requests on every other connection keep their waiters.
pub proof fn lemma_connection_lost(
    entries: Seq<PendingRequest>,
    lost: ConnectionId,
    connection: ConnectionId,
    request_id: u32,
)
    requires
        keys_distinct(entries),
    ensures
        keys_distinct(surviving(entries, lost)),
        keys_distinct(outstanding_on(entries, lost)),
        outstanding_on(entries, lost).len() + surviving(entries, lost).len() == entries.len(),
        outstanding_on(surviving(entries, lost), lost).len() == 0,
        waiter_of(surviving(entries, lost), lost, request_id) is None,
        waiter_of(outstanding_on(entries, lost), lost, request_id) == waiter_of(
            entries,
            lost,
            request_id,
        ),
        connection != lost ==> waiter_of(surviving(entries, lost), connection, request_id)
            == waiter_of(entries, connection, request_id),
{
    let kept = surviving(entries, lost);
    let gone = outstanding_on(entries, lost);
    lemma_filter_entries(entries, off_connection(lost));
    lemma_filter_entries(entries, on_connection(lost));
    lemma_partition_len(entries, lost);
    lemma_filter_entries(kept, on_connection(lost));
    assert(outstanding_on(kept, lost).len() == 0) by {
        let again = outstanding_on(kept, lost);
        if again.len() > 0 {
            assert(again.contains(again[0]));
            assert(kept.contains(again[0]));
        }
    }
    lemma_same_waiter(entries, kept, lost, request_id);
    lemma_same_waiter(entries, gone, lost, request_id);
    lemma_same_waiter(entries, kept, connection, request_id);
}

/// The table after a connection is lost holds exactly the entries that were
/// on other connections; the lost ones are exactly those that were on it.
pub proof fn lemma_surviving_entries(entries: Seq<PendingRequest>, lost: ConnectionId)
    ensures
        forall|entry: PendingRequest| #[trigger]
            surviving(entries, lost).contains(entry) <==> entries.contains(entry)
                && entry.connection_id != lost,
        forall|entry: PendingRequest| #[trigger]
            outstanding_on(entries, lost).contains(entry) <==> entries.contains(entry)
                && entry.connection_id == lost,
{
    lemma_filter_entries(entries, off_connection(lost));
    lemma_filter_entries(entries, on_connection(lost));
}

/// Each entry is on the connection or off it.
proof fn lemma_partition_len(entries: Seq<PendingRequest>, connection: ConnectionId)
    ensures
        outstanding_on(entries, connection).len() + surviving(entries, connection).len()
            == entries.len(),
    decreases entries.len(),
{
    if entries.len() == 0 {
        reveal(Seq::filter);
    } else {
        let init = entries.drop_last();
        lemma_partition_len(init, connection);
        init.lemma_filter_push(entries.last(), on_connection(connection));
        init.lemma_filter_push(entries.last(), off_connection(connection));
        assert(entries =~= init.push(entries.last()));
    }
}

/// Where one table holds an entry of a key exactly if another does, both
/// name the same waiter for it.
proof fn lemma_same_waiter(
    entries: Seq<PendingRequest>,
    part: Seq<PendingRequest>,
    connection: ConnectionId,
    request_id: u32,
)
    requires
        keys_distinct(entries),
        keys_distinct(part),
        forall|entry: PendingRequest| #[trigger] part.contains(entry) ==> entries.contains(entry),
    ensures
        waiter_of(part, connection, request_id) is Some ==> waiter_of(part, connection, request_id)
            == waiter_of(entries, connection, request_id),
        (forall|entry: PendingRequest|
            entries.contains(entry) && entry.has_key(connection, request_id)
                ==> #[trigger] part.contains(entry)) ==> waiter_of(part, connection, request_id)
            == waiter_of(entries, connection, request_id),
{
    lemma_slot_found(entries, connection, request_id);
    lemma_slot_found(part, connection, request_id);
    if let Some(k) = slot(part, connection, request_id) {
        assert(part.contains(part[k]));
        let i = choose|i: int| 0 <= i < entries.len() && entries[i] == part[k];
        lemma_slot_is(entries, connection, request_id, i);
    } else if let Some(i) = slot(entries, connection, request_id) {
        assert(entries.contains(entries[i]));
        if part.contains(entries[i]) {
            let k = choose|k: int| 0 <= k < part.len() && part[k] == entries[i];
            assert(part[k].has_key(connection, request_id));
        }
    }
}

/// The table of outstanding requests.
#[derive(Debug)]
pub struct PendingTable {
    entries: Vec<PendingRequest>,
}

impl View for PendingTable {
    type V = Seq<PendingRequest>;

    closed spec fn view(&self) -> Seq<PendingRequest> {
        self.entries@
    }
}

impl PendingTable {
    /// At most one entry per connection and request id.
    pub open spec fn wf(&self) -> bool {
        keys_distinct(self@)
    }

    /// An empty table.
    pub fn new() -> (table: PendingTable)
        ensures
            table.wf(),
            table@ == Seq::<PendingRequest>::empty(),
    {
        PendingTable { entries: Vec::new() }
    }

    /// How many requests are outstanding.
    pub fn len(&self) -> (len: usize)
        ensures
            len == self@.len(),
    {
        self.entries.len()
    }

    /// Where the entry for a request stands.
    fn find(&self, connection: ConnectionId, request_id: u32) -> (found: Option<usize>)
        requires
            self.wf(),
        ensures
            match found {
                Some(i) => slot(self@, connection, request_id) == Some(i as int) && i < self@.len(),
                None => slot(self@, connection, request_id) is None,
            },
    {
        let mut i: usize = 0;
        while i < self.entries.len()
            invariant
                self.wf(),
                i <= self.entries@.len(),
                forall|j: int|
                    0 <= j < i ==> !(#[trigger] self.entries@[j]).has_key(connection, request_id),
            decreases self.entries@.len() - i,
        {
            let entry = self.entries[i];
            if entry.connection_id == connection && entry.request_id == request_id {
                proof {
                    lemma_slot_is(self@, connection, request_id, i as int);
                }
                return Some(i);
            }
            i = i + 1;
        }
        None
    }

    /// Who waits for the response to a request, if it is outstanding.
    pub fn waiter(&self, connection: ConnectionId, request_id: u32) -> (waiter: Option<WaiterId>)
        requires
            self.wf(),
        ensures
            waiter == waiter_of(self@, connection, request_id),
    {
        match self.find(connection, request_id) {
            Some(i) => Some(self.entries[i].waiter),
            None => None,
        }
    }

    /// Enters a request. Returns `false`, and changes nothing, where a
    /// request with the same connection and id is already outstanding.
    pub fn register(&mut self, connection: ConnectionId, request_id: u32, waiter: WaiterId) -> (
        registered: bool
    )
        requires
            old(self).wf(),
        ensures
            final(self).wf(),
            registered == (waiter_of(old(self)@, connection, request_id) is None),
            final(self)@ == if registered {
                old(self)@.push(PendingRequest { connection_id: connection, request_id, waiter })
            } else {
                old(self)@
            },
    {
        match self.find(connection, request_id) {
            Some(_) => false,
            None => {
                let entry = PendingRequest { connection_id: connection, request_id, waiter };
                proof {
                    lemma_request_finds_its_waiter(self@, entry, connection, request_id);
                }
                self.entries.push(entry);
                true
            },
        }
    }

    /// Takes a request out of the table: its response has arrived, or its
    /// caller has given up. Returns its waiter; `None`, and nothing changed,
    /// where no such request is outstanding.
    pub fn resolve(&mut self, connection: ConnectionId, request_id: u32) -> (waiter: Option<
        WaiterId,
    >)
        requires
            old(self).wf(),
        ensures
            final(self).wf(),
            waiter == waiter_of(old(self)@, connection, request_id),
            final(self)@ == without(old(self)@, connection, request_id),
    {
        match self.find(connection, request_id) {
            Some(i) => {
                proof {
                    lemma_remove_keeps_distinct(self@, i as int);
                }
                let entry = self.entries.remove(i);
                Some(entry.waiter)
            },
            None => None,
        }
    }

    /// How many requests are outstanding on `connection`.
    pub fn outstanding(&self, connection: ConnectionId) -> (count: usize)
        ensures
            count == outstanding_on(self@, connection).len(),
    {
        let mut count: usize = 0;
        let mut i: usize = 0;
        proof {
            reveal(Seq::filter);
            assert(self.entries@.take(0) =~= Seq::<PendingRequest>::empty());
        }
        while i < self.entries.len()
            invariant
                i <= self.entries@.len(),
                count <= i,
                count == outstanding_on(self.entries@.take(i as int), connection).len(),
            decreases self.entries@.len() - i,
        {
            let entry = self.entries[i];
            proof {
                let prefix = self.entries@.take(i as int);
                assert(self.entries@.take(i + 1) =~= prefix.push(entry));
                prefix.lemma_filter_push(entry, on_connection(connection));
            }
            if entry.connection_id == connection {
                count = count + 1;
            }
            i = i + 1;
        }
        proof {
            assert(self.entries@.take(i as int) =~= self.entries@);
        }
        count
    }

    /// Takes every request on `connection` out of the table and returns
    /// what their waiters are to be told, oldest request first: one
    /// `ConnectionLost` for each request that was outstanding on the
    /// connection, no more and no fewer. Requests on other connections stay
    /// as they are.
    pub fn drain(&mut self, connection: ConnectionId) -> (lost: Vec<Failure>)
        requires
            old(self).wf(),
        ensures
            final(self).wf(),
            lost@ == connection_lost(outstanding_on(old(self)@, connection)),
            lost@.len() == outstanding_on(old(self)@, connection).len(),
            final(self)@ == surviving(old(self)@, connection),
            outstanding_on(final(self)@, connection).len() == 0,
    {
        let mut kept: Vec<PendingRequest> = Vec::new();
        let mut lost: Vec<Failure> = Vec::new();
        let mut i: usize = 0;
        proof {
            reveal(Seq::filter);
            assert(self.entries@.take(0) =~= Seq::<PendingRequest>::empty());
            assert(connection_lost(outstanding_on(self.entries@.take(0), connection)) =~= lost@);
        }
        while i < self.entries.len()
            invariant
                i <= self.entries@.len(),
                self.entries@ == old(self).entries@,
                kept@ == surviving(self.entries@.take(i as int), connection),
                lost@ == connection_lost(outstanding_on(self.entries@.take(i as int), connection)),
            decreases self.entries@.len() - i,
        {
            let entry = self.entries[i];
            proof {
                let prefix = self.entries@.take(i as int);
                assert(self.entries@.take(i + 1) =~= prefix.push(entry));
                prefix.lemma_filter_push(entry, on_connection(connection));
                prefix.lemma_filter_push(entry, off_connection(connection));
                let gone = outstanding_on(prefix, connection);
                assert(connection_lost(gone.push(entry)) =~= connection_lost(gone).push(
                    Failure { waiter: entry.waiter, error: RpcError::ConnectionLost },
                ));
            }
            if entry.connection_id == connection {
                lost.push(Failure { waiter: entry.waiter, error: RpcError::ConnectionLost });
            } else {
                kept.push(entry);
            }
            i = i + 1;
        }
        proof {
            assert(self.entries@.take(i as int) =~= self.entries@);
            lemma_connection_lost(old(self)@, connection, connection, 0);
        }
        self.entries = kept;
        lost
    }
}

} // verus!
