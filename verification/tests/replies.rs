use rpc::conn::ConnectionId;
use rpc::replies::ReplyLedger;

#[test]
fn ledger_notes_settles_and_forgets() {
    let mut ledger = ReplyLedger::new();
    assert_eq!(ledger.len(), 0);
    assert!(!ledger.owes(ConnectionId(1), 7));
    ledger.note(ConnectionId(1), 7);
    ledger.note(ConnectionId(1), 7);
    ledger.note(ConnectionId(1), 8);
    ledger.note(ConnectionId(2), 7);
    assert_eq!(ledger.len(), 3);
    assert!(ledger.owes(ConnectionId(1), 7));
    assert!(ledger.settle(ConnectionId(1), 7));
    assert!(!ledger.settle(ConnectionId(1), 7));
    assert!(!ledger.owes(ConnectionId(1), 7));
    assert!(ledger.owes(ConnectionId(2), 7));
    ledger.forget(ConnectionId(1));
    assert!(!ledger.owes(ConnectionId(1), 8));
    assert!(ledger.owes(ConnectionId(2), 7));
    assert_eq!(ledger.len(), 1);
}
