use striped_maps::adapters::dashmap_adapter::DashMapAdapter;
use striped_maps::adapters::leapmap_adapter::LeapMapAdapter;
use striped_maps::adapters::singlelockmap::SingleLockMapAdapter;
use striped_maps::adapters::striped::{next_power_of_two, StripedHashMapAdapter};
use striped_maps::adapters::Adapter;
use striped_maps::protocol::{batch_fits, decode_key, run_batch, OPS_PER_COMMAND, OP_BYTES};

fn op(code: u8, key: u64) -> Vec<u8> {
    let mut v = vec![code];
    v.extend_from_slice(&key.to_be_bytes());
    v
}

fn command(ops: &[(u8, u64)]) -> Vec<u8> {
    let mut v = Vec::new();
    for (c, k) in ops {
        v.extend(op(*c, *k));
    }
    v.resize(OP_BYTES * OPS_PER_COMMAND, 0);
    v
}

#[test]
fn decode_key_is_big_endian() {
    let bytes = vec![9u8, 0, 0, 0, 0, 0, 0, 1, 2];
    assert_eq!(decode_key(&bytes, 1), 258);
    let max = vec![0xffu8; 8];
    assert_eq!(decode_key(&max, 0), u64::MAX);
}

fn exercise<T: Adapter>(table: &mut T) {
    let cmd = command(&[(1, 7), (2, 7), (1, 7), (2, 7), (4, 7), (4, 8), (3, 7), (3, 7), (9, 7), (1, 7), (0, 0), (2, 5)]);
    let (codes, done) = run_batch(table, &cmd, OPS_PER_COMMAND).unwrap();
    assert!(done);
    assert_eq!(codes.len(), OPS_PER_COMMAND);
    assert_eq!(&codes[..12], &[1, 0, 0, 1, 0, 1, 0, 1, 0, 1, 0, 0]);
    assert!(codes[12..].iter().all(|c| *c == 0));
    assert!(!table.get(&5));
}

#[test]
fn batch_on_single_lock_map() {
    let mut t = SingleLockMapAdapter::create_with_capacity(16);
    exercise(&mut t);
}

#[test]
fn batch_on_striped_map() {
    let mut t = StripedHashMapAdapter::with_cpu_count(64, 1).unwrap();
    exercise(&mut t);
}

#[test]
fn batch_on_dash_map() {
    let mut t = DashMapAdapter::create_with_capacity(16);
    exercise(&mut t);
}

#[test]
fn batch_on_leap_map() {
    let mut t = LeapMapAdapter::create_with_capacity(64);
    exercise(&mut t);
}

#[test]
fn batch_without_close_runs_every_operation() {
    let mut t = SingleLockMapAdapter::create_with_capacity(4);
    let mut cmd = op(2, 1);
    cmd.extend(op(4, 1));
    cmd.extend(op(4, 1));
    let (codes, done) = run_batch(&mut t, &cmd, 3).unwrap();
    assert!(!done);
    assert_eq!(codes, vec![0, 0, 0]);
}

#[test]
fn update_counts_up_from_zero() {
    let mut t = SingleLockMapAdapter::create_with_capacity(4);
    assert!(t.insert(&3, 0));
    assert!(t.update(&3));
    assert!(t.update(&3));
    assert!(!t.insert(&3, 0));
    assert!(!t.update(&4));
}

#[test]
fn next_power_of_two_values() {
    assert_eq!(next_power_of_two(0), Some(1));
    assert_eq!(next_power_of_two(1), Some(1));
    assert_eq!(next_power_of_two(5), Some(8));
    assert_eq!(next_power_of_two(64), Some(64));
    assert_eq!(next_power_of_two(usize::MAX), None);
}

#[test]
fn striped_adapter_stripe_counts() {
    assert!(StripedHashMapAdapter::with_cpu_count(10, 3).is_some());
    assert!(StripedHashMapAdapter::with_cpu_count(10, usize::MAX).is_none());
    assert!(StripedHashMapAdapter::create_with_capacity(1000).is_some());
}

#[test]
fn leap_map_adapter_operations() {
    let mut t = LeapMapAdapter::create_with_capacity(64);
    for k in [1u64, 2, 3, 1000] {
        if !t.accepts(&k) {
            continue;
        }
        assert!(!t.get(&k));
        assert!(t.insert(&k, 0));
        assert!(t.get(&k));
        assert!(t.update(&k));
        assert!(!t.insert(&k, 5));
        assert!(t.remove(&k));
        assert!(!t.get(&k));
        assert!(!t.update(&k));
    }
}

#[test]
fn batch_stops_before_an_overflowing_increment() {
    let mut t = SingleLockMapAdapter::create_with_capacity(4);
    t.insert(&1, u64::MAX);
    let mut cmd = op(2, 2);
    cmd.extend(op(4, 1));
    cmd.extend(op(3, 2));
    assert_eq!(run_batch(&mut t, &cmd, 3), None);
    assert!(t.get(&2));
    assert_eq!(t.value(&1), Some(u64::MAX));
}

#[test]
fn batch_fits_reads_up_to_the_close() {
    let mut cmd = op(1, 1);
    cmd.extend(op(0, 0));
    assert!(batch_fits(&cmd, 100));
    assert!(batch_fits(&op(1, 1), 1));
    assert!(!batch_fits(&op(1, 1), 2));
    assert!(!batch_fits(&vec![1u8, 0, 0], 1));
}

#[test]
fn leap_map_try_operations() {
    let mut t = LeapMapAdapter::create_with_capacity(16);
    assert_eq!(t.try_get(&11), Some(false));
    assert_eq!(t.try_insert(&11, 4), Some(true));
    assert_eq!(t.try_update(&11), Some(true));
    assert_eq!(t.value(&11), Some(5));
    assert_eq!(t.try_insert(&11, u64::MAX - 3), Some(false));
    assert_eq!(t.try_update(&11), Some(true));
    assert_eq!(t.try_update(&11), None);
    assert_eq!(t.try_remove(&11), Some(true));
    assert_eq!(t.try_remove(&11), Some(false));
}

fn drive<T: Adapter>(table: &mut T) -> Vec<bool> {
    let mut answers = Vec::new();
    for k in [3u64, 8, 3, 12, 8] {
        answers.push(table.get(&k));
        answers.push(table.insert(&k, k * 10));
        answers.push(table.update(&k));
        if k == 8 {
            answers.push(table.remove(&k));
        }
    }
    answers.push(table.remove(&100));
    answers.push(table.update(&100));
    answers
}

#[test]
fn adapters_agree_on_the_same_calls() {
    let mut single = SingleLockMapAdapter::create_with_capacity(8);
    let mut dash = DashMapAdapter::create_with_capacity(8);
    let mut striped = StripedHashMapAdapter::with_cpu_count(8, 4).unwrap();
    let expected = drive(&mut single);
    assert_eq!(
        expected,
        vec![
            false, true, true, false, true, true, true, true, false, true, false, true, true,
            false, true, true, true, false, false
        ]
    );
    assert_eq!(drive(&mut dash), expected);
    assert_eq!(drive(&mut striped), expected);
    for k in [3u64, 8, 12, 100] {
        let v = single.value(&k);
        assert_eq!(dash.value(&k), v);
        assert_eq!(striped.value(&k), v);
    }
    assert_eq!(single.value(&3), Some(31));
    assert_eq!(single.value(&12), Some(121));
    assert_eq!(single.value(&8), None);
}
