//! The ledger of answers owed: requests that arrived unasked, were handed
//! to the application, and have not been answered yet.
//!
//! A response may only name a request that the remote has sent on the same
//! connection and that is still open. The ledger is what this is checked
//! against.

use crate::conn::ConnectionId;
use vstd::prelude::*;

verus! {

/// A request of the remote's that waits for the application's answer.
#[derive(Clone, Copy, Debug, PartialEq, Eq, Hash, Structural)]
pub struct InboundRequest {
    pub connection_id: ConnectionId,
    /// The id that the remote gave the request.
    pub request_id: u32,
}

/// The ledger once a request has been noted: unchanged where it was open already.
pub open spec fn noted(open: Seq<InboundRequest>, request: InboundRequest) -> Seq<InboundRequest> {
    if open.contains(request) {
        open
    } else {
        open.push(request)
    }
}

/// Where a request stands in the ledger, if it is open.
pub open spec fn position(open: Seq<InboundRequest>, request: InboundRequest) -> Option<int> {
    if exists|i: int| 0 <= i < open.len() && #[trigger] open[i] == request {
        Some(choose|i: int| 0 <= i < open.len() && #[trigger] open[i] == request)
    } else {
        None
    }
}

/// The ledger once a request has been answered.
pub open spec fn settled(open: Seq<InboundRequest>, request: InboundRequest) -> Seq<
    InboundRequest,
> {
    match position(open, request) {
        Some(i) => open.remove(i),
        None => open,
    }
}

/// The test for requests that came on any other connection than `connection`.
pub open spec fn not_from(connection: ConnectionId) -> spec_fn(InboundRequest) -> bool {
    |request: InboundRequest| request.connection_id != connection
}

/// The ledger once a connection has ended: nothing is owed on it any more.
pub open spec fn forgotten(open: Seq<InboundRequest>, connection: ConnectionId) -> Seq<
    InboundRequest,
> {
    open.filter(not_from(connection))
}

/// After a request is noted it is open, once, and nothing else has changed.
pub proof fn lemma_noted(open: Seq<InboundRequest>, request: InboundRequest, other: InboundRequest)
    requires
        open.no_duplicates(),
    ensures
        noted(open, request).no_duplicates(),
        noted(open, request).contains(request),
        other != request ==> noted(open, request).contains(other) == open.contains(other),
{
    let after = noted(open, request);
    if !open.contains(request) {
        assert(after[open.len() as int] == request);
        assert forall|i: int, j: int|
            0 <= i < after.len() && 0 <= j < after.len() && i != j implies after[i] != after[j] by {
            if i < open.len() {
                assert(open.contains(open[i]));
            }
            if j < open.len() {
                assert(open.contains(open[j]));
            }
        }
        if open.contains(other) {
            let k = choose|k: int| 0 <= k < open.len() && open[k] == other;
            assert(after[k] == other);
        }
        if after.contains(other) && other != request {
            let k = choose|k: int| 0 <= k < after.len() && after[k] == other;
            assert(open[k] == other);
        }
    }
}

/// An answer settles its request: afterwards the request is not open, so a
/// second answer to it is refused, and every other request is as open as
/// it was.
pub proof fn lemma_settled(open: Seq<InboundRequest>, request: InboundRequest, other: InboundRequest)
    requires
        open.no_duplicates(),
    ensures
        settled(open, request).no_duplicates(),
        !settled(open, request).contains(request),
        other != request ==> settled(open, request).contains(other) == open.contains(other),
        position(open, request) is Some == open.contains(request),
{
    let after = settled(open, request);
    if let Some(i) = position(open, request) {
        assert forall|a: int, b: int|
            0 <= a < after.len() && 0 <= b < after.len() && a != b implies after[a] != after[b] by {
            let a0 = if a < i {
                a
            } else {
                a + 1
            };
            let b0 = if b < i {
                b
            } else {
                b + 1
            };
            assert(after[a] == open[a0] && after[b] == open[b0]);
        }
        if after.contains(request) {
            let k = choose|k: int| 0 <= k < after.len() && after[k] == request;
            let k0 = if k < i {
                k
            } else {
                k + 1
            };
            assert(after[k] == open[k0]);
        }
        if open.contains(other) && other != request {
            let k = choose|k: int| 0 <= k < open.len() && open[k] == other;
            let k1 = if k < i {
                k
            } else {
                k - 1
            };
            assert(after[k1] == other);
        }
        if after.contains(other) {
            let k = choose|k: int| 0 <= k < after.len() && after[k] == other;
            let k0 = if k < i {
                k
            } else {
                k + 1
            };
            assert(open[k0] == other);
        }
    }
}

/// When a connection ends, exactly what was owed on it is forgotten.
pub proof fn lemma_forgotten(open: Seq<InboundRequest>, connection: ConnectionId)
    ensures
        forall|request: InboundRequest| #[trigger]
            forgotten(open, connection).contains(request) <==> open.contains(request)
                && request.connection_id != connection,
        open.no_duplicates() ==> forgotten(open, connection).no_duplicates(),
    decreases open.len(),
{
    let test = not_from(connection);
    let kept = forgotten(open, connection);
    if open.len() == 0 {
        reveal(Seq::filter);
        assert(kept.len() == 0);
    } else {
        let init = open.drop_last();
        let last = open.last();
        let before = forgotten(init, connection);
        lemma_forgotten(init, connection);
        init.lemma_filter_push(last, test);
        assert(open =~= init.push(last));
        if test(last) {
            assert(kept =~= before.push(last));
        } else {
            assert(kept =~= before);
        }
        assert forall|request: InboundRequest| #[trigger] kept.contains(request) implies open.contains(
            request,
        ) && request.connection_id != connection by {
            let k = choose|k: int| 0 <= k < kept.len() && kept[k] == request;
            if k < before.len() {
                assert(before[k] == request);
                assert(before.contains(request));
                let i = choose|i: int| 0 <= i < init.len() && init[i] == request;
                assert(open[i] == request);
            } else {
                assert(open[open.len() - 1] == request);
            }
        }
        assert forall|request: InboundRequest|
            open.contains(request) && request.connection_id != connection implies #[trigger]
            kept.contains(request) by {
            let i = choose|i: int| 0 <= i < open.len() && open[i] == request;
            if i < init.len() {
                assert(init[i] == request);
                assert(init.contains(request));
                assert(before.contains(request));
                let k = choose|k: int| 0 <= k < before.len() && before[k] == request;
                assert(kept[k] == request);
            } else {
                assert(kept[kept.len() - 1] == request);
            }
        }
        if open.no_duplicates() {
            assert(init.no_duplicates());
            assert forall|a: int, b: int|
                0 <= a < kept.len() && 0 <= b < kept.len() && a != b implies kept[a] != kept[b] by {
                if a < before.len() && b < before.len() {
                    assert(before[a] != before[b]);
                } else {
                    let inner = if a < before.len() {
                        a
                    } else {
                        b
                    };
                    assert(before[inner] == kept[inner]);
                    assert(before.contains(kept[inner]));
                    let i = choose|i: int| 0 <= i < init.len() && init[i] == kept[inner];
                    assert(open[i] != open[open.len() - 1]);
                }
            }
        }
    }
}

/// The ledger of answers owed.
#[derive(Debug)]
pub struct ReplyLedger {
    open: Vec<InboundRequest>,
}

impl View for ReplyLedger {
    type V = Seq<InboundRequest>;

    closed spec fn view(&self) -> Seq<InboundRequest> {
        self.open@
    }
}

impl ReplyLedger {
    /// No request is entered twice.
    pub open spec fn wf(&self) -> bool {
        self@.no_duplicates()
    }

    /// A ledger in which nothing is owed.
    pub fn new() -> (ledger: ReplyLedger)
        ensures
            ledger.wf(),
            ledger@ == Seq::<InboundRequest>::empty(),
    {
        ReplyLedger { open: Vec::new() }
    }

    /// How many answers are owed.
    pub fn len(&self) -> (len: usize)
        ensures
            len == self@.len(),
    {
        self.open.len()
    }

    /// Where a request stands.
    fn find(&self, request: InboundRequest) -> (found: Option<usize>)
        requires
            self.wf(),
        ensures
            match found {
                Some(i) => position(self@, request) == Some(i as int) && i < self@.len(),
                None => position(self@, request) is None && !self@.contains(request),
            },
    {
        let mut i: usize = 0;
        while i < self.open.len()
            invariant
                self.wf(),
                i <= self.open@.len(),
                forall|j: int| 0 <= j < i ==> #[trigger] self.open@[j] != request,
            decreases self.open@.len() - i,
        {
            if self.open[i] == request {
                return Some(i);
            }
            i = i + 1;
        }
        None
    }

    /// Whether an answer to this request is owed.
    pub fn owes(&self, connection: ConnectionId, request_id: u32) -> (owed: bool)
        requires
            self.wf(),
        ensures
            owed == self@.contains(InboundRequest { connection_id: connection, request_id }),
    {
        let request = InboundRequest { connection_id: connection, request_id };
        proof {
            lemma_settled(self@, request, request);
        }
        self.find(request).is_some()
    }

    /// Enters a request that was handed to the application. Nothing changes
    /// where it is open already.
    pub fn note(&mut self, connection: ConnectionId, request_id: u32)
        requires
            old(self).wf(),
        ensures
            final(self).wf(),
            final(self)@ == noted(
                old(self)@,
                InboundRequest { connection_id: connection, request_id },
            ),
    {
        let request = InboundRequest { connection_id: connection, request_id };
        proof {
            lemma_noted(self@, request, request);
            lemma_settled(self@, request, request);
        }
        if self.find(request).is_none() {
            self.open.push(request);
        }
    }

    /// Strikes a request that has been answered. Returns whether it was open.
    pub fn settle(&mut self, connection: ConnectionId, request_id: u32) -> (was_open: bool)
        requires
            old(self).wf(),
        ensures
            final(self).wf(),
            was_open == old(self)@.contains(
                InboundRequest { connection_id: connection, request_id },
            ),
            final(self)@ == settled(
                old(self)@,
                InboundRequest { connection_id: connection, request_id },
            ),
    {
        let request = InboundRequest { connection_id: connection, request_id };
        proof {
            lemma_settled(self@, request, request);
        }
        match self.find(request) {
            Some(i) => {
                self.open.remove(i);
                true
            },
            None => false,
        }
    }

    /// Strikes everything owed on a connection that has ended.
    pub fn forget(&mut self, connection: ConnectionId)
        requires
            old(self).wf(),
        ensures
            final(self).wf(),
            final(self)@ == forgotten(old(self)@, connection),
    {
        let mut kept: Vec<InboundRequest> = Vec::new();
        let mut i: usize = 0;
        proof {
            reveal(Seq::filter);
            assert(self.open@.take(0) =~= Seq::<InboundRequest>::empty());
        }
        while i < self.open.len()
            invariant
                i <= self.open@.len(),
                self.open@ == old(self).open@,
                kept@ == forgotten(self.open@.take(i as int), connection),
            decreases self.open@.len() - i,
        {
            let request = self.open[i];
            proof {
                let prefix = self.open@.take(i as int);
                assert(self.open@.take(i + 1) =~= prefix.push(request));
                prefix.lemma_filter_push(request, not_from(connection));
            }
            if request.connection_id != connection {
                kept.push(request);
            }
            i = i + 1;
        }
        proof {
            assert(self.open@.take(i as int) =~= self.open@);
            lemma_forgotten(old(self)@, connection);
        }
        self.open = kept;
    }
}

} // verus!
