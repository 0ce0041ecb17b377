use bloom_filter_rs::{BloomFilter, Murmur3};
use kave::store::lsm::{LSMStore, FILTER_BITS, FILTER_HASHES};
use kave::store::{TransactInstruction, Transaction, MAX_KEY_LEN};

fn transact(store: &mut LSMStore, instructions: Vec<TransactInstruction<'_>>) {
    assert_eq!(store.transact(Transaction { instructions }), Ok(()));
}

#[test]
fn a_new_store_holds_nothing() {
    let store = LSMStore::new();
    assert_eq!(store.get("unset_key"), None);
    assert_eq!(store.get(""), None);
}

#[test]
fn a_value_that_was_put_is_found() {
    let mut store = LSMStore::new();
    transact(&mut store, vec![TransactInstruction::Put("my_key", b"my_value")]);
    assert_eq!(store.get("my_key"), Some(b"my_value".to_vec()));
    assert_eq!(store.get("my_key2"), None);
    assert_eq!(store.get("my_ke"), None);
}

#[test]
fn an_empty_value_is_a_value() {
    let mut store = LSMStore::new();
    transact(&mut store, vec![TransactInstruction::Put("k", b"")]);
    assert_eq!(store.get("k"), Some(Vec::new()));
}

#[test]
fn a_later_put_replaces_an_earlier_one() {
    let mut store = LSMStore::new();
    transact(&mut store, vec![TransactInstruction::Put("k", b"one")]);
    transact(&mut store, vec![TransactInstruction::Put("k", b"two")]);
    assert_eq!(store.get("k"), Some(b"two".to_vec()));
}

#[test]
fn a_deleted_key_is_absent() {
    let mut store = LSMStore::new();
    transact(&mut store, vec![TransactInstruction::Put("k", b"v")]);
    transact(&mut store, vec![TransactInstruction::Delete("k")]);
    assert_eq!(store.get("k"), None);
}

#[test]
fn a_key_that_was_only_deleted_is_absent() {
    let mut store = LSMStore::new();
    transact(&mut store, vec![TransactInstruction::Delete("never_set")]);
    assert_eq!(store.get("never_set"), None);
}

#[test]
fn a_deleted_key_can_be_put_again() {
    let mut store = LSMStore::new();
    transact(&mut store, vec![TransactInstruction::Put("k", b"v")]);
    transact(&mut store, vec![TransactInstruction::Delete("k")]);
    transact(&mut store, vec![TransactInstruction::Put("k", b"w")]);
    assert_eq!(store.get("k"), Some(b"w".to_vec()));
}

#[test]
fn instructions_apply_in_list_order() {
    let mut store = LSMStore::new();
    transact(
        &mut store,
        vec![
            TransactInstruction::Put("a", b"1"),
            TransactInstruction::Put("b", b"2"),
            TransactInstruction::Delete("a"),
            TransactInstruction::Put("b", b"3"),
            TransactInstruction::Put("c", b"4"),
            TransactInstruction::Delete("c"),
            TransactInstruction::Put("c", b"5"),
        ],
    );
    assert_eq!(store.get("a"), None);
    assert_eq!(store.get("b"), Some(b"3".to_vec()));
    assert_eq!(store.get("c"), Some(b"5".to_vec()));
}

#[test]
fn the_last_transaction_that_writes_a_key_decides() {
    let mut store = LSMStore::new();
    transact(&mut store, vec![TransactInstruction::Put("k", b"1"), TransactInstruction::Put("j", b"x")]);
    transact(&mut store, vec![TransactInstruction::Put("k", b"2")]);
    transact(&mut store, vec![TransactInstruction::Put("other", b"3")]);
    assert_eq!(store.get("k"), Some(b"2".to_vec()));
    assert_eq!(store.get("j"), Some(b"x".to_vec()));
    transact(&mut store, vec![TransactInstruction::Delete("k")]);
    transact(&mut store, vec![TransactInstruction::Put("other", b"4")]);
    assert_eq!(store.get("k"), None);
    assert_eq!(store.get("other"), Some(b"4".to_vec()));
}

#[test]
fn the_same_put_twice_is_the_same_put_once() {
    let mut once = LSMStore::new();
    transact(&mut once, vec![TransactInstruction::Put("k", b"v")]);
    let mut twice = LSMStore::new();
    transact(&mut twice, vec![TransactInstruction::Put("k", b"v")]);
    transact(&mut twice, vec![TransactInstruction::Put("k", b"v")]);
    for key in ["k", "j", "", "kk"] {
        assert_eq!(once.get(key), twice.get(key));
    }
    assert_eq!(twice.get("k"), Some(b"v".to_vec()));
}

#[test]
fn an_empty_transaction_changes_nothing() {
    let mut store = LSMStore::new();
    transact(&mut store, vec![TransactInstruction::Put("k", b"v")]);
    transact(&mut store, Vec::new());
    assert_eq!(store.get("k"), Some(b"v".to_vec()));
}

#[test]
fn keys_never_written_are_absent_among_many() {
    let mut store = LSMStore::new();
    let keys: Vec<String> = (0..2000).map(|i| format!("key-{}", i)).collect();
    for key in keys.iter() {
        transact(&mut store, vec![TransactInstruction::Put(key, key.as_bytes())]);
    }
    for key in keys.iter() {
        assert_eq!(store.get(key), Some(key.as_bytes().to_vec()));
    }
    // More keys than the filter was sized for: some of these lookups pass
    // the filter and are settled by the memtable.
    for i in 0..2000 {
        assert_eq!(store.get(&format!("absent-{}", i)), None);
    }
}

#[test]
fn keys_are_told_apart_byte_by_byte() {
    let mut store = LSMStore::new();
    transact(
        &mut store,
        vec![
            TransactInstruction::Put("a", b"1"),
            TransactInstruction::Put("A", b"2"),
            TransactInstruction::Put("a ", b"3"),
            TransactInstruction::Put("é", b"4"),
            TransactInstruction::Put("a:b\nc", b"5"),
        ],
    );
    assert_eq!(store.get("a"), Some(b"1".to_vec()));
    assert_eq!(store.get("A"), Some(b"2".to_vec()));
    assert_eq!(store.get("a "), Some(b"3".to_vec()));
    assert_eq!(store.get("é"), Some(b"4".to_vec()));
    assert_eq!(store.get("a:b\nc"), Some(b"5".to_vec()));
    assert_eq!(store.get("e"), None);
}

#[test]
fn values_keep_every_byte() {
    let mut store = LSMStore::new();
    let value: Vec<u8> = (0..=255).collect();
    transact(&mut store, vec![TransactInstruction::Put("bytes", &value)]);
    assert_eq!(store.get("bytes"), Some(value));
}

#[test]
fn the_filter_has_the_parameters_that_are_optimal_for_512_keys() {
    let mut optimal = BloomFilter::optimal(Murmur3, 512, 0.01);
    let mut made = BloomFilter::new(Murmur3, FILTER_HASHES, FILTER_BITS);
    assert_eq!(FILTER_HASHES, 7);
    assert_eq!(FILTER_BITS, 4908);
    for i in 0..512 {
        let key = format!("key-{}", i);
        optimal.insert(key.as_bytes());
        made.insert(key.as_bytes());
    }
    assert_eq!(optimal.false_positive_rate(), made.false_positive_rate());
    for i in 0..5000 {
        let probe = format!("probe-{}", i);
        assert_eq!(optimal.contains(probe.as_bytes()), made.contains(probe.as_bytes()));
    }
}

#[test]
fn long_keys_that_fit_are_taken() {
    assert_eq!(MAX_KEY_LEN as u64, u32::MAX as u64);
    let mut store = LSMStore::new();
    let key = "k".repeat(1 << 16);
    transact(&mut store, vec![TransactInstruction::Put(&key, b"v")]);
    assert_eq!(store.get(&key), Some(b"v".to_vec()));
    assert_eq!(store.get(&key[1..]), None);
}
