use swarm_core::file::BlockInfo;
use swarm_core::peers::PeerAddr;
use swarm_core::requests::{RequestTable, Selector};
use swarm_core::utils::RemoveValue;

fn addr(last: u8) -> PeerAddr {
    PeerAddr { v6: false, ip: 0x0a00_0000 + last as u128, port: 6881, flowinfo: 0, scope_id: 0 }
}

fn block(piece: usize) -> BlockInfo {
    BlockInfo { piece, range: 0..16384 }
}

fn table() -> RequestTable {
    let mut table = RequestTable::new();
    table.insert(10, (block(0), addr(1)));
    table.insert(20, (block(1), addr(2)));
    table.insert(30, (block(2), addr(1)));
    table.insert(40, (block(3), addr(3)));
    table
}

#[test]
fn remove_value_test() {
    let mut table = table();
    assert_eq!(table.get(30), Some(&(block(2), addr(1))));

    // remove the request for block 2 to the first peer
    assert_eq!(table.remove_value((block(2), addr(1))), Some(30));
    assert_eq!(table.remove_value((block(2), addr(1))), None);
    // the same block to another peer is another value
    assert_eq!(table.remove_value((block(0), addr(2))), None);

    assert_eq!(table.get(30), None);
    assert_eq!(table.len(), 3);
}

#[test]
fn insert_replaces_under_the_same_token() {
    let mut table = table();
    assert_eq!(table.insert(20, (block(7), addr(3))), Some((block(1), addr(2))));
    assert_eq!(table.len(), 4);
    assert_eq!(table.get(20), Some(&(block(7), addr(3))));
    assert_eq!(table.insert(50, (block(8), addr(3))), None);
    assert_eq!(table.len(), 5);
}

#[test]
fn counts_and_blocks() {
    let table = table();
    assert_eq!(table.count_to(addr(1)), 2);
    assert_eq!(table.count_to(addr(2)), 1);
    assert_eq!(table.count_to(addr(9)), 0);
    assert!(table.holds_block(&block(3)));
    assert!(!table.holds_block(&block(4)));
    assert!(!table.holds_block(&BlockInfo { piece: 3, range: 0..100 }));
}

#[test]
fn remove_and_remove_peer() {
    let mut table = table();
    assert_eq!(table.remove(20), Some((block(1), addr(2))));
    assert_eq!(table.remove(20), None);
    assert_eq!(table.remove_peer(addr(1)), vec![10, 30]);
    assert_eq!(table.remove_peer(addr(1)), Vec::<u64>::new());
    assert_eq!(table.len(), 1);
    assert_eq!(table.get(40), Some(&(block(3), addr(3))));
}

#[test]
fn extract_splits_the_table() {
    let mut table = table();
    let out = table.extract(&Selector::Peer(addr(1)));
    assert_eq!(out, vec![(10, (block(0), addr(1))), (30, (block(2), addr(1)))]);
    assert_eq!(table.len(), 2);
    let out = table.extract(&Selector::Token(40));
    assert_eq!(out, vec![(40, (block(3), addr(3)))]);
    let out = table.extract(&Selector::Value(block(1), addr(3)));
    assert_eq!(out, vec![]);
    assert_eq!(table.len(), 1);
}
