use lionfs::ondisk::records::JOURNAL_MAGIC;
use lionfs::recovery::RecoveryManager;

const BS: usize = 4096;

fn put_u64(b: &mut [u8], off: usize, v: u64) {
    b[off..off + 8].copy_from_slice(&v.to_le_bytes());
}

fn put_u32(b: &mut [u8], off: usize, v: u32) {
    b[off..off + 4].copy_from_slice(&v.to_le_bytes());
}

fn header(tx: u64, count: u32) -> Vec<u8> {
    let mut b = vec![0u8; BS];
    put_u64(&mut b, 0, JOURNAL_MAGIC);
    put_u32(&mut b, 8, 1);
    put_u32(&mut b, 12, count);
    put_u64(&mut b, 16, tx);
    put_u64(&mut b, 24, 1234);
    let c = crc32fast::hash(&b);
    put_u32(&mut b, 32, c);
    b
}

fn record(tx: u64, target: u64, data: &[u8]) -> Vec<u8> {
    let mut b = vec![0u8; BS];
    put_u64(&mut b, 0, tx);
    put_u64(&mut b, 8, target);
    put_u32(&mut b, 16, crc32fast::hash(data));
    b
}

fn footer(tx: u64, count: u32) -> Vec<u8> {
    let mut b = vec![0u8; BS];
    put_u64(&mut b, 0, JOURNAL_MAGIC);
    put_u64(&mut b, 8, tx);
    put_u32(&mut b, 16, count);
    let c = crc32fast::hash(&b);
    put_u32(&mut b, 20, c);
    b
}

fn data(fill: u8) -> Vec<u8> {
    vec![fill; BS]
}

fn transaction(tx: u64, writes: &[(u64, Vec<u8>)]) -> Vec<Vec<u8>> {
    let mut j = vec![header(tx, writes.len() as u32)];
    for (target, d) in writes {
        j.push(record(tx, *target, d));
        j.push(d.clone());
    }
    j.push(footer(tx, writes.len() as u32));
    j
}

#[test]
fn empty_journal_plans_nothing() {
    let plan = RecoveryManager::plan(&Vec::new(), 9);
    assert_eq!(plan.highest_tx, 0);
    assert!(plan.writes.is_empty());
    assert_eq!(plan.replayed, 0);
}

#[test]
fn committed_transaction_is_replayed_in_order() {
    let journal = transaction(5, &[(40, data(1)), (41, data(2))]);
    let plan = RecoveryManager::plan(&journal, 3);
    assert_eq!(plan.highest_tx, 5);
    assert_eq!(plan.replayed, 1);
    assert_eq!(plan.writes, vec![(40, data(1)), (41, data(2))]);
}

#[test]
fn old_transaction_is_not_replayed() {
    let journal = transaction(2, &[(40, data(1))]);
    let plan = RecoveryManager::plan(&journal, 3);
    assert_eq!(plan.highest_tx, 3);
    assert_eq!(plan.replayed, 0);
    assert!(plan.writes.is_empty());
}

#[test]
fn corrupt_data_block_drops_transaction() {
    let mut journal = transaction(5, &[(40, data(1))]);
    journal[2][100] ^= 0xFF;
    let plan = RecoveryManager::plan(&journal, 3);
    assert_eq!(plan.highest_tx, 3);
    assert_eq!(plan.replayed, 0);
    assert!(plan.writes.is_empty());
}

#[test]
fn corrupt_header_checksum_drops_transaction() {
    let mut journal = transaction(5, &[(40, data(1))]);
    journal[0][200] = 7;
    let plan = RecoveryManager::plan(&journal, 3);
    assert_eq!(plan.replayed, 0);
    assert!(plan.writes.is_empty());
}

#[test]
fn footer_for_another_transaction_drops_it() {
    let mut journal = transaction(5, &[(40, data(1))]);
    journal[3] = footer(6, 1);
    let plan = RecoveryManager::plan(&journal, 3);
    assert_eq!(plan.replayed, 0);
    assert_eq!(plan.highest_tx, 3);
}

#[test]
fn journal_ending_before_commit_drops_transaction() {
    let mut journal = transaction(5, &[(40, data(1))]);
    journal.pop();
    let plan = RecoveryManager::plan(&journal, 3);
    assert_eq!(plan.replayed, 0);
    assert!(plan.writes.is_empty());
}

#[test]
fn transactions_replay_by_id_not_position() {
    let mut journal = transaction(7, &[(50, data(7))]);
    journal.extend(transaction(6, &[(50, data(6)), (51, data(8))]));
    let plan = RecoveryManager::plan(&journal, 1);
    assert_eq!(plan.highest_tx, 7);
    assert_eq!(plan.replayed, 2);
    assert_eq!(plan.writes, vec![(50, data(6)), (51, data(8)), (50, data(7))]);
}

#[test]
fn later_copy_of_transaction_replaces_earlier() {
    let mut journal = transaction(4, &[(60, data(1))]);
    journal.extend(transaction(4, &[(61, data(2))]));
    let plan = RecoveryManager::plan(&journal, 0);
    assert_eq!(plan.replayed, 1);
    assert_eq!(plan.writes, vec![(61, data(2))]);
}

#[test]
fn garbage_between_transactions_is_skipped() {
    let mut journal = vec![data(9)];
    journal.extend(transaction(3, &[(70, data(3))]));
    journal.push(data(0));
    let plan = RecoveryManager::plan(&journal, 0);
    assert_eq!(plan.highest_tx, 3);
    assert_eq!(plan.writes, vec![(70, data(3))]);
}
