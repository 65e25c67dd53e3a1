use dashmap::DashMap;
use striped_maps::server::{HandShakeRequest, KeyValueType, Options};
use striped_maps::sharded_map_handler::{run_request, Operation, OperationResult, RequestOutcome};

fn num(v: u64) -> KeyValueType {
    KeyValueType::Int(v)
}

fn text(s: &str) -> KeyValueType {
    KeyValueType::String(s.to_string())
}

#[test]
fn request_results_in_order() {
    let mut map: DashMap<KeyValueType, KeyValueType> = DashMap::new();
    let ops = vec![
        Operation::Read { key: num(1) },
        Operation::Insert { key: num(1), value: num(40) },
        Operation::Insert { key: num(1), value: num(41) },
        Operation::Read { key: num(1) },
        Operation::Increment { key: num(1) },
        Operation::Insert { key: text("a"), value: text("b") },
        Operation::Increment { key: text("a") },
        Operation::Increment { key: num(9) },
        Operation::Remove { key: num(1) },
        Operation::Remove { key: num(1) },
    ];
    match run_request(&mut map, ops) {
        RequestOutcome::Replies(rs) => {
            assert_eq!(rs.len(), 10);
            assert!(matches!(&rs[0], OperationResult::ReadFailure(s) if s == "Key does not exist"));
            assert!(matches!(&rs[1], OperationResult::InsertNew(KeyValueType::Int(40))));
            assert!(matches!(&rs[2], OperationResult::InsertOld(KeyValueType::Int(40))));
            assert!(matches!(&rs[3], OperationResult::ReadSuccess(KeyValueType::Int(41))));
            assert!(matches!(&rs[4], OperationResult::IncrementSuccess(KeyValueType::Int(43))));
            assert!(matches!(&rs[5], OperationResult::InsertNew(KeyValueType::String(s)) if s == "b"));
            assert!(matches!(&rs[6], OperationResult::IncrementFailure(s) if s == "Value is not an integer"));
            assert!(matches!(&rs[7], OperationResult::IncrementFailure(s) if s == "Key does not exist"));
            assert!(matches!(&rs[8], OperationResult::RemoveSuccess(KeyValueType::Int(41))));
            assert!(matches!(&rs[9], OperationResult::RemoveFailure(s) if s == "Key does not exist"));
        }
        _ => panic!("expected replies"),
    }
    assert!(map.get(&num(1)).is_none());
}

#[test]
fn increment_does_not_store() {
    let mut map: DashMap<KeyValueType, KeyValueType> = DashMap::new();
    map.insert(num(5), num(7));
    let out = run_request(&mut map, vec![Operation::Increment { key: num(5) }]);
    assert!(matches!(out, RequestOutcome::Replies(_)));
    assert_eq!(*map.get(&num(5)).unwrap(), num(7));
}

#[test]
fn close_drops_the_request() {
    let mut map: DashMap<KeyValueType, KeyValueType> = DashMap::new();
    let out = run_request(
        &mut map,
        vec![Operation::Insert { key: num(2), value: num(3) }, Operation::Close, Operation::Remove { key: num(2) }],
    );
    assert!(matches!(out, RequestOutcome::Close));
    assert_eq!(*map.get(&num(2)).unwrap(), num(3));
}

#[test]
fn increment_near_max_overflows() {
    let mut map: DashMap<KeyValueType, KeyValueType> = DashMap::new();
    map.insert(num(1), num(u64::MAX - 1));
    let out = run_request(&mut map, vec![Operation::Increment { key: num(1) }]);
    assert!(matches!(out, RequestOutcome::Overflow));
}

#[test]
fn options_default_map() {
    assert_eq!(Options::default().map, "DashMap");
}

#[test]
fn handshake_sizes() {
    let h = HandShakeRequest {
        client_threads: 3,
        server_threads: 2,
        ops_per_req: 100,
        capacity: 10,
        key_type: num(0),
        value_type: num(0),
    };
    assert_eq!(h.map_capacity(), 1024);
    assert_eq!(h.worker_connections(), 6);
}

#[test]
fn request_on_strings() {
    let mut map: DashMap<KeyValueType, KeyValueType> = DashMap::new();
    let out = run_request(
        &mut map,
        vec![
            Operation::Insert { key: text("k"), value: num(1) },
            Operation::Read { key: text("k") },
            Operation::Remove { key: text("k") },
            Operation::Read { key: text("k") },
        ],
    );
    match out {
        RequestOutcome::Replies(rs) => {
            assert!(matches!(&rs[0], OperationResult::InsertNew(KeyValueType::Int(1))));
            assert!(matches!(&rs[1], OperationResult::ReadSuccess(KeyValueType::Int(1))));
            assert!(matches!(&rs[2], OperationResult::RemoveSuccess(KeyValueType::Int(1))));
            assert!(matches!(&rs[3], OperationResult::ReadFailure(_)));
        }
        _ => panic!("expected replies"),
    }
}
