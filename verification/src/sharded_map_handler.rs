//! The request handler of the shared benchmark map: a request is a list of
//! operations on keys and values that are integers or strings, answered by a
//! list of results.
use vstd::prelude::*;
use ::dashmap::DashMap;
use crate::server::{KeyValueType, KeyView};

verus! {

/// One operation of a request.
pub enum Operation {
    Read { key: KeyValueType },
    Insert { key: KeyValueType, value: KeyValueType },
    Remove { key: KeyValueType },
    Increment { key: KeyValueType },
    Close,
}

/// The result of one operation.
pub enum OperationResult {
    ReadSuccess(KeyValueType),
    ReadFailure(String),
    InsertNew(KeyValueType),
    InsertOld(KeyValueType),
    RemoveSuccess(KeyValueType),
    RemoveFailure(String),
    IncrementSuccess(KeyValueType),
    IncrementFailure(String),
}

/// What running a request came to.
pub enum RequestOutcome {
    /// The results of all operations, in order.
    Replies(Vec<OperationResult>),
    /// A close was met: the connection ends and no results are sent.
    Close,
    /// An increment would pass `u64::MAX`; the handler stops here.
    Overflow,
}

/// What a `DashMap` of benchmark keys and values holds, by the views of its
/// keys and values.
pub uninterp spec fn kv_contents(m: DashMap<KeyValueType, KeyValueType>) -> Map<KeyView, KeyView>;

/// A trusted call of `DashMap::get`, cloning the value out: a value with the view
/// of the one held for `key` when the map holds it, `None` otherwise. Keys compare
/// and hash by their views.
#[verifier::external_body]
fn kv_get(m: &DashMap<KeyValueType, KeyValueType>, key: &KeyValueType) -> (r: Option<KeyValueType>)
    ensures
        match r {
            Some(v) => kv_contents(*m).contains_key(key@) && v@ == kv_contents(*m)[key@],
            None => !kv_contents(*m).contains_key(key@),
        },
{
    m.get(key).map(|entry| entry.value().clone())
}

/// A trusted call of `DashMap::insert` with a clone of `value`: the map then maps
/// `key` to `value`, and the old value comes back when there was one.
#[verifier::external_body]
fn kv_insert(
    m: &mut DashMap<KeyValueType, KeyValueType>,
    key: KeyValueType,
    value: &KeyValueType,
) -> (r: Option<KeyValueType>)
    ensures
        kv_contents(*final(m)) == kv_contents(*old(m)).insert(key@, value@),
        match r {
            Some(o) => kv_contents(*old(m)).contains_key(key@) && o@ == kv_contents(*old(m))[key@],
            None => !kv_contents(*old(m)).contains_key(key@),
        },
{
    m.insert(key, value.clone())
}

/// A trusted call of `DashMap::remove`: the map then no longer holds `key`, and
/// the held key and value come back when there were some.
#[verifier::external_body]
fn kv_remove(m: &mut DashMap<KeyValueType, KeyValueType>, key: &KeyValueType) -> (r: Option<
    (KeyValueType, KeyValueType),
>)
    ensures
        kv_contents(*final(m)) == kv_contents(*old(m)).remove(key@),
        match r {
            Some(e) => kv_contents(*old(m)).contains_key(key@) && e.0@ == key@ && e.1@
                == kv_contents(*old(m))[key@],
            None => !kv_contents(*old(m)).contains_key(key@),
        },
{
    m.remove(key)
}

/// The failure text for a missing key.
pub open spec fn missing_text() -> Seq<char> {
    "Key does not exist"@
}

/// The failure text for incrementing a string.
pub open spec fn not_integer_text() -> Seq<char> {
    "Value is not an integer"@
}

/// `r` is the result of a read that found `found`.
pub open spec fn is_read_result(found: Option<KeyValueType>, r: OperationResult) -> bool {
    match found {
        Some(v) => r == OperationResult::ReadSuccess(v),
        None => r matches OperationResult::ReadFailure(s) && s@ == missing_text(),
    }
}

/// `r` is the result of an insertion of `value` that displaced `old`.
pub open spec fn is_insert_result(
    old: Option<KeyValueType>,
    value: KeyValueType,
    r: OperationResult,
) -> bool {
    match old {
        Some(o) => r == OperationResult::InsertOld(o),
        None => r == OperationResult::InsertNew(value),
    }
}

/// `r` is the result of a removal that took out `removed`.
pub open spec fn is_remove_result(
    removed: Option<(KeyValueType, KeyValueType)>,
    r: OperationResult,
) -> bool {
    match removed {
        Some((_k, v)) => r == OperationResult::RemoveSuccess(v),
        None => r matches OperationResult::RemoveFailure(s) && s@ == missing_text(),
    }
}

/// An increment that found `found` does not pass `u64::MAX`.
pub open spec fn increment_fits(found: Option<KeyValueType>) -> bool {
    found matches Some(KeyValueType::Int(v)) ==> v + 2 <= u64::MAX
}

/// `r` is the result of an increment that found `found`: an integer `v` answers
/// `v + 2` (the stored value stays as it was), a string or a missing key fail.
pub open spec fn is_increment_result(found: Option<KeyValueType>, r: OperationResult) -> bool {
    match found {
        Some(KeyValueType::Int(v)) => r == OperationResult::IncrementSuccess(
            KeyValueType::Int((v + 2) as u64),
        ),
        Some(KeyValueType::String(_)) => r matches OperationResult::IncrementFailure(s) && s@
            == not_integer_text(),
        None => r matches OperationResult::IncrementFailure(s) && s@ == missing_text(),
    }
}

/// The result of a read that found `found`.
pub fn read_result(found: Option<KeyValueType>) -> (r: OperationResult)
    ensures
        is_read_result(found, r),
{
    match found {
        Some(value) => OperationResult::ReadSuccess(value),
        None => OperationResult::ReadFailure(String::from_str("Key does not exist")),
    }
}

/// The result of an insertion of `value` that displaced `old`.
pub fn insert_result(old: Option<KeyValueType>, value: KeyValueType) -> (r: OperationResult)
    ensures
        is_insert_result(old, value, r),
{
    match old {
        Some(old_value) => OperationResult::InsertOld(old_value),
        None => OperationResult::InsertNew(value),
    }
}

/// The result of a removal that took out `removed`.
pub fn remove_result(removed: Option<(KeyValueType, KeyValueType)>) -> (r: OperationResult)
    ensures
        is_remove_result(removed, r),
{
    match removed {
        Some((_key, value)) => OperationResult::RemoveSuccess(value),
        None => OperationResult::RemoveFailure(String::from_str("Key does not exist")),
    }
}

/// The result of an increment that found `found`.
pub fn increment_result(found: Option<KeyValueType>) -> (r: OperationResult)
    requires
        increment_fits(found),
    ensures
        is_increment_result(found, r),
{
    match found {
        Some(KeyValueType::Int(value)) => {
            let value = value + 1;
            OperationResult::IncrementSuccess(KeyValueType::Int(value + 1))
        },
        Some(KeyValueType::String(_)) => OperationResult::IncrementFailure(
            String::from_str("Value is not an integer"),
        ),
        None => OperationResult::IncrementFailure(String::from_str("Key does not exist")),
    }
}

/// What an increment that found `found` comes to: the result, or `None` with
/// the flag set when the increment would pass `u64::MAX`.
pub fn increment_outcome(found: Option<KeyValueType>) -> (r: (Option<OperationResult>, bool))
    ensures
        r.1 == !increment_fits(found),
        !r.1 ==> (r.0 matches Some(res) && is_increment_result(found, res)),
        r.1 ==> r.0 is None,
{
    let fits = match &found {
        Some(KeyValueType::Int(v)) => *v <= u64::MAX - 2,
        _ => true,
    };
    if fits {
        (Some(increment_result(found)), false)
    } else {
        (None, true)
    }
}

/// `r` is the result of `op` on a map that holds `m`.
pub open spec fn is_result(m: Map<KeyView, KeyView>, op: Operation, r: OperationResult) -> bool {
    match op {
        Operation::Read { key } => if m.contains_key(key@) {
            r matches OperationResult::ReadSuccess(v) && v@ == m[key@]
        } else {
            r matches OperationResult::ReadFailure(s) && s@ == missing_text()
        },
        Operation::Insert { key, value } => if m.contains_key(key@) {
            r matches OperationResult::InsertOld(o) && o@ == m[key@]
        } else {
            r == OperationResult::InsertNew(value)
        },
        Operation::Remove { key } => if m.contains_key(key@) {
            r matches OperationResult::RemoveSuccess(v) && v@ == m[key@]
        } else {
            r matches OperationResult::RemoveFailure(s) && s@ == missing_text()
        },
        Operation::Increment { key } => if m.contains_key(key@) {
            match m[key@] {
                KeyView::Int(v) => r == OperationResult::IncrementSuccess(
                    KeyValueType::Int((v + 2) as u64),
                ),
                KeyView::Str(_) => r matches OperationResult::IncrementFailure(s) && s@
                    == not_integer_text(),
            }
        } else {
            r matches OperationResult::IncrementFailure(s) && s@ == missing_text()
        },
        Operation::Close => false,
    }
}

/// What the map holds after `op` on a map that holds `m`.
pub open spec fn op_effect(m: Map<KeyView, KeyView>, op: Operation) -> Map<KeyView, KeyView> {
    match op {
        Operation::Insert { key, value } => m.insert(key@, value@),
        Operation::Remove { key } => m.remove(key@),
        _ => m,
    }
}

/// `op` is an increment that would pass `u64::MAX` on a map that holds `m`.
pub open spec fn op_overflows(m: Map<KeyView, KeyView>, op: Operation) -> bool {
    match op {
        Operation::Increment { key } => m.contains_key(key@) && match m[key@] {
            KeyView::Int(v) => v + 2 > u64::MAX,
            KeyView::Str(_) => false,
        },
        _ => false,
    }
}

/// `op` stops a request on a map that holds `m`: a close, or an overflow.
pub open spec fn op_stops(m: Map<KeyView, KeyView>, op: Operation) -> bool {
    op is Close || op_overflows(m, op)
}

/// What the map holds after the first `i` operations of `ops`, from `m`.
pub open spec fn state_after(m: Map<KeyView, KeyView>, ops: Seq<Operation>, i: int) -> Map<
    KeyView,
    KeyView,
>
    decreases i,
{
    if i <= 0 {
        m
    } else {
        op_effect(state_after(m, ops, i - 1), ops[i - 1])
    }
}

/// None of the first `j` operations of `ops` stops the request, from `m`.
pub open spec fn runs_through(m: Map<KeyView, KeyView>, ops: Seq<Operation>, j: int) -> bool {
    forall|i: int| 0 <= i < j ==> !op_stops(state_after(m, ops, i), #[trigger] ops[i])
}

/// Runs one operation on the map: its result, or `None` for a close or for an
/// increment that would pass `u64::MAX` (then the flag is set).
pub fn run_operation(map: &mut DashMap<KeyValueType, KeyValueType>, op: Operation) -> (r: (
    Option<OperationResult>,
    bool,
))
    ensures
        r.1 == op_overflows(kv_contents(*old(map)), op),
        r.0 is None <==> op_stops(kv_contents(*old(map)), op),
        r.0 matches Some(res) ==> is_result(kv_contents(*old(map)), op, res),
        kv_contents(*final(map)) == op_effect(kv_contents(*old(map)), op),
{
    match op {
        Operation::Read { key } => {
            let found = kv_get(map, &key);
            (Some(read_result(found)), false)
        },
        Operation::Insert { key, value } => {
            let old = kv_insert(map, key, &value);
            (Some(insert_result(old, value)), false)
        },
        Operation::Remove { key } => {
            let removed = kv_remove(map, &key);
            (Some(remove_result(removed)), false)
        },
        Operation::Increment { key } => {
            let found = kv_get(map, &key);
            increment_outcome(found)
        },
        Operation::Close => (None, false),
    }
}

/// `out` is what running `ops` in order on a map that holds `m` comes to, the map
/// then holding `after`: the results of all operations when none stops; otherwise
/// the close or the overflow of the first operation that stops, every operation
/// before it having run and none after it.
pub open spec fn is_request_outcome(
    m: Map<KeyView, KeyView>,
    ops: Seq<Operation>,
    out: RequestOutcome,
    after: Map<KeyView, KeyView>,
) -> bool {
    match out {
        RequestOutcome::Replies(rs) => {
            &&& runs_through(m, ops, ops.len() as int)
            &&& rs@.len() == ops.len()
            &&& forall|i: int|
                0 <= i < ops.len() ==> is_result(state_after(m, ops, i), ops[i], #[trigger] rs@[i])
            &&& after == state_after(m, ops, ops.len() as int)
        },
        RequestOutcome::Close => exists|j: int|
            0 <= j < ops.len() && runs_through(m, ops, j) && (#[trigger] ops[j]) is Close && after
                == state_after(m, ops, j),
        RequestOutcome::Overflow => exists|j: int|
            0 <= j < ops.len() && runs_through(m, ops, j) && op_overflows(
                state_after(m, ops, j),
                #[trigger] ops[j],
            ) && after == state_after(m, ops, j),
    }
}

/// Runs the operations of one request on the map, in order, stopping at the
/// first close or overflow.
pub fn run_request(map: &mut DashMap<KeyValueType, KeyValueType>, operations: Vec<Operation>) -> (r:
    RequestOutcome)
    ensures
        is_request_outcome(kv_contents(*old(map)), operations@, r, kv_contents(*final(map))),
{
    let ghost ops = operations@;
    let ghost m0 = kv_contents(*map);
    let mut pending = operations;
    let mut reversed: Vec<Operation> = Vec::new();
    while pending.len() > 0
        invariant
            pending@.len() + reversed@.len() == ops.len(),
            forall|i: int| 0 <= i < pending@.len() ==> pending@[i] == ops[i],
            forall|i: int|
                0 <= i < reversed@.len() ==> reversed@[i] == ops[ops.len() - 1 - i],
        decreases pending@.len(),
    {
        let op = pending.pop().unwrap();
        reversed.push(op);
    }
    let mut results: Vec<OperationResult> = Vec::new();
    while reversed.len() > 0
        invariant
            results@.len() + reversed@.len() == ops.len(),
            ops == operations@,
            m0 == kv_contents(*old(map)),
            forall|i: int|
                0 <= i < reversed@.len() ==> reversed@[i] == ops[ops.len() - 1 - i],
            runs_through(m0, ops, results@.len() as int),
            kv_contents(*map) == state_after(m0, ops, results@.len() as int),
            forall|i: int|
                0 <= i < results@.len() ==> is_result(
                    state_after(m0, ops, i),
                    ops[i],
                    #[trigger] results@[i],
                ),
        decreases reversed@.len(),
    {
        let ghost k = results@.len() as int;
        let op = reversed.pop().unwrap();
        assert(op == ops[k]);
        let (res, overflow) = run_operation(map, op);
        if overflow {
            assert(0 <= k < ops.len() && runs_through(m0, ops, k) && op_overflows(
                state_after(m0, ops, k),
                ops[k],
            ) && kv_contents(*map) == state_after(m0, ops, k));
            return RequestOutcome::Overflow;
        }
        match res {
            Some(result) => {
                results.push(result);
                assert(state_after(m0, ops, k + 1) == op_effect(state_after(m0, ops, k), ops[k]));
                assert forall|i: int| 0 <= i < k + 1 implies !op_stops(
                    state_after(m0, ops, i),
                    #[trigger] ops[i],
                ) by {
                    if i < k {
                        assert(runs_through(m0, ops, k));
                    }
                }
            },
            None => {
                assert(0 <= k < ops.len() && runs_through(m0, ops, k) && ops[k] is Close
                    && kv_contents(*map) == state_after(m0, ops, k));
                return RequestOutcome::Close;
            },
        }
    }
    RequestOutcome::Replies(results)
}

/// A read, an increment or a close leaves the map as it was: in particular an
/// increment of a missing key inserts nothing, and one of an integer does not
/// store the number it answers.
pub proof fn law_reads_leave_map(m: Map<KeyView, KeyView>, op: Operation)
    requires
        op is Read || op is Increment || op is Close,
    ensures
        op_effect(m, op) == m,
{
}

/// After an increment of a key that the map does not hold, a read of the same key
/// still fails with "Key does not exist".
pub proof fn law_read_after_failed_increment(m: Map<KeyView, KeyView>, key: KeyValueType, r: OperationResult)
    requires
        !m.contains_key(key@),
        is_result(op_effect(m, Operation::Increment { key }), Operation::Read { key }, r),
    ensures
        r matches OperationResult::ReadFailure(s) && s@ == missing_text(),
{
}

/// An insertion makes the key hold the value inserted, and a removal makes the
/// key absent; every other key is as it was.
pub proof fn law_writes_touch_one_key(m: Map<KeyView, KeyView>, key: KeyValueType, value: KeyValueType, other: KeyView)
    requires
        other != key@,
    ensures
        op_effect(m, Operation::Insert { key, value }).contains_key(key@),
        op_effect(m, Operation::Insert { key, value })[key@] == value@,
        !op_effect(m, Operation::Remove { key }).contains_key(key@),
        op_effect(m, Operation::Insert { key, value }).contains_key(other) == m.contains_key(other),
        op_effect(m, Operation::Remove { key }).contains_key(other) == m.contains_key(other),
        m.contains_key(other) ==> op_effect(m, Operation::Insert { key, value })[other] == m[other],
        m.contains_key(other) ==> op_effect(m, Operation::Remove { key })[other] == m[other],
{
}

} // verus!
