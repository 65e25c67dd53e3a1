//! The binary request protocol: a command is a run of 9-byte operations, each an
//! operation byte and a big-endian `u64` key. Operation 0 closes the
//! connection, 1 looks a key up, 2 inserts it with value 0, 3 removes it and 4
//! adds one to its value; any other byte does nothing. Each operation answers a
//! code: 0 for success, 1 for failure.
use vstd::prelude::*;
use crate::adapters::{bumped, Adapter};

verus! {

/// Bytes per operation in a command.
pub const OP_BYTES: usize = 9;

/// Operations per command.
pub const OPS_PER_COMMAND: usize = 100;

/// The number that the bytes `s` spell in big-endian order.
pub open spec fn be_value(s: Seq<u8>) -> nat
    decreases s.len(),
{
    if s.len() == 0 {
        0
    } else {
        be_value(s.drop_last()) * 256 + s.last() as nat
    }
}

/// 256 to the power `n`.
pub open spec fn pow256(n: nat) -> nat
    decreases n,
{
    if n == 0 {
        1
    } else {
        256 * pow256((n - 1) as nat)
    }
}

proof fn lemma_be_value_bound(s: Seq<u8>)
    ensures
        be_value(s) < pow256(s.len()),
    decreases s.len(),
{
    if s.len() > 0 {
        lemma_be_value_bound(s.drop_last());
        let a = be_value(s.drop_last());
        let p = pow256(s.drop_last().len());
        let b = s.last() as nat;
        assert(a * 256 + b < 256 * p) by (nonlinear_arith)
            requires
                a < p,
                b < 256,
        ;
    }
}

/// The operation byte of operation `i` of `cmd`.
pub open spec fn op_at(cmd: Seq<u8>, i: int) -> u8 {
    cmd[9 * i]
}

/// The key of operation `i` of `cmd`.
pub open spec fn key_at(cmd: Seq<u8>, i: int) -> u64 {
    be_value(cmd.subrange(9 * i + 1, 9 * i + 9)) as u64
}

/// What one operation does to the map `m`, and the code it answers.
pub open spec fn apply_op(m: Map<u64, u64>, op: u8, key: u64) -> (Map<u64, u64>, u8) {
    if op == 1 {
        (m, if m.contains_key(key) { 0u8 } else { 1u8 })
    } else if op == 2 {
        (m.insert(key, 0), if m.contains_key(key) { 1u8 } else { 0u8 })
    } else if op == 3 {
        (m.remove(key), if m.contains_key(key) { 0u8 } else { 1u8 })
    } else if op == 4 {
        (bumped(m, key), if m.contains_key(key) { 0u8 } else { 1u8 })
    } else {
        (m, 0u8)
    }
}

/// One operation runs without fault on an adapter `T` that maps `m`: the adapter
/// can file the key of a map operation, can store the 0 an insertion writes, and
/// an increment neither passes `u64::MAX` nor makes a value it cannot store.
pub open spec fn op_ok<T: Adapter>(m: Map<u64, u64>, op: u8, key: u64) -> bool {
    &&& (1 <= op <= 4 ==> T::admits_key(key))
    &&& (op == 2 ==> T::admits_value(0))
    &&& (op == 4 && m.contains_key(key) ==> m[key] < u64::MAX && T::admits_value(
        (m[key] + 1) as u64,
    ))
}

/// Running operations `i..ops` of `cmd` on `m`: the final map, the codes of those
/// operations (0 for those after a close), and whether a close was met.
pub open spec fn run_from(m: Map<u64, u64>, cmd: Seq<u8>, ops: int, i: int) -> (
    Map<u64, u64>,
    Seq<u8>,
    bool,
)
    decreases ops - i,
{
    if i >= ops {
        (m, Seq::empty(), false)
    } else if op_at(cmd, i) == 0 {
        (m, Seq::new((ops - i) as nat, |x: int| 0u8), true)
    } else {
        let step = apply_op(m, op_at(cmd, i), key_at(cmd, i));
        let rest = run_from(step.0, cmd, ops, i + 1);
        (rest.0, seq![step.1] + rest.1, rest.2)
    }
}

/// Every operation of `i..ops` that is read lies within `cmd` (the key is read
/// before the operation byte is looked at; reading stops after a close).
pub open spec fn fits_from(cmd: Seq<u8>, ops: int, i: int) -> bool
    decreases ops - i,
{
    i >= ops || {
        &&& 9 * i + 9 <= cmd.len()
        &&& (op_at(cmd, i) != 0 ==> fits_from(cmd, ops, i + 1))
    }
}

/// Every operation among `i..ops` of `cmd` that is run from `m` runs without
/// fault on an adapter `T` (see `op_ok`).
pub open spec fn no_fault_from<T: Adapter>(m: Map<u64, u64>, cmd: Seq<u8>, ops: int, i: int) -> bool
    decreases ops - i,
{
    i >= ops || op_at(cmd, i) == 0 || {
        &&& op_ok::<T>(m, op_at(cmd, i), key_at(cmd, i))
        &&& no_fault_from::<T>(apply_op(m, op_at(cmd, i), key_at(cmd, i)).0, cmd, ops, i + 1)
    }
}

/// Whether the operations `0..ops` that are read all lie within `cmd`.
pub fn batch_fits(cmd: &Vec<u8>, ops: usize) -> (r: bool)
    ensures
        r == fits_from(cmd@, ops as int, 0),
{
    let n = cmd.len();
    let mut i: usize = 0;
    while i < ops
        invariant
            n == cmd@.len(),
            i <= ops,
            fits_from(cmd@, ops as int, 0) == fits_from(cmd@, ops as int, i as int),
        decreases ops - i,
    {
        if n / 9 <= i {
            return false;
        }
        if cmd[9 * i] == 0 {
            return true;
        }
        i = i + 1;
    }
    true
}

/// Reads the big-endian `u64` at `bytes[start..start + 8]`.
pub fn decode_key(bytes: &Vec<u8>, start: usize) -> (k: u64)
    requires
        start + 8 <= bytes@.len(),
    ensures
        k == be_value(bytes@.subrange(start as int, start + 8)),
{
    let mut v: u64 = 0;
    let mut j: usize = 0;
    while j < 8
        invariant
            j <= 8,
            start + 8 <= bytes.len(),
            v == be_value(bytes@.subrange(start as int, start + j)),
        decreases 8 - j,
    {
        let ghost prefix = bytes@.subrange(start as int, start + j);
        let ghost next = bytes@.subrange(start as int, start + j + 1);
        proof {
            assert(next.drop_last() =~= prefix);
            lemma_be_value_bound(prefix);
            assert(pow256(7) == 72057594037927936) by {
                reveal_with_fuel(pow256, 8);
            }
            assert(pow256(prefix.len()) <= pow256(7)) by {
                lemma_pow256_mono(prefix.len(), 7);
            }
        }
        v = v * 256 + bytes[start + j] as u64;
        j = j + 1;
    }
    v
}

proof fn lemma_pow256_mono(a: nat, b: nat)
    requires
        a <= b,
    ensures
        pow256(a) <= pow256(b),
    decreases b,
{
    if a < b {
        lemma_pow256_mono(a, (b - 1) as nat);
    }
}

/// Runs operations `0..ops` of `cmd` on `table`, stopping at the first close.
/// Answers the codes of all `ops` operations (0 for those not run) and whether a
/// close was met; or `None`, when an operation would fault on the adapter (see
/// `op_ok`), having run the operations before it.
pub fn run_batch<T: Adapter>(table: &mut T, cmd: &Vec<u8>, ops: usize) -> (r: Option<(Vec<u8>, bool)>)
    requires
        old(table).inv(),
        fits_from(cmd@, ops as int, 0),
    ensures
        final(table).inv(),
        r is None <==> !no_fault_from::<T>(old(table)@, cmd@, ops as int, 0),
        r matches Some(out) ==> {
            &&& final(table)@ == run_from(old(table)@, cmd@, ops as int, 0).0
            &&& out.0@ == run_from(old(table)@, cmd@, ops as int, 0).1
            &&& out.1 == run_from(old(table)@, cmd@, ops as int, 0).2
        },
{
    let ghost whole = run_from(table@, cmd@, ops as int, 0);
    let ghost safe = no_fault_from::<T>(table@, cmd@, ops as int, 0);
    let mut codes: Vec<u8> = Vec::new();
    let mut k: usize = 0;
    while k < ops
        invariant
            k <= ops,
            codes@.len() == k,
            forall|x: int| 0 <= x < k ==> codes@[x] == 0,
        decreases ops - k,
    {
        codes.push(0);
        k = k + 1;
    }
    let mut done = false;
    let mut index: usize = 0;
    while index < ops
        invariant_except_break
            index <= ops,
            table.inv(),
            codes@.len() == ops,
            forall|x: int| index <= x < ops ==> codes@[x] == 0,
            fits_from(cmd@, ops as int, index as int),
            safe == no_fault_from::<T>(table@, cmd@, ops as int, index as int),
            safe == no_fault_from::<T>(old(table)@, cmd@, ops as int, 0),
            whole.0 == run_from(table@, cmd@, ops as int, index as int).0,
            whole.2 == run_from(table@, cmd@, ops as int, index as int).2,
            whole.1 == codes@.take(index as int) + run_from(
                table@,
                cmd@,
                ops as int,
                index as int,
            ).1,
            !done,
            index == ops ==> codes@.take(index as int) =~= codes@,
        ensures
            table.inv(),
            safe,
            whole.0 == table@,
            whole.1 == codes@,
            whole.2 == done,
        decreases ops - index,
    {
        assert(9 * index + 9 <= cmd.len());
        let start_index = 9 * index;
        let operation = cmd[start_index];
        let key = decode_key(cmd, start_index + 1);
        assert(cmd@.subrange(start_index + 1, start_index + 9) == cmd@.subrange(
            9 * index + 1,
            9 * index + 9,
        ));
        let ghost before = table@;
        let ghost rest = run_from(before, cmd@, ops as int, index as int);
        if operation == 0 {
            done = true;
            assert(codes@ =~= codes@.take(index as int) + rest.1);
            break;
        }
        if 1 <= operation && operation <= 4 && !table.accepts_key(&key) {
            assert(!op_ok::<T>(before, operation, key));
            return None;
        }
        if operation == 2 && !table.accepts_value(0) {
            assert(!op_ok::<T>(before, operation, key));
            return None;
        }
        let error_code: u8;
        if operation == 1 {
            error_code = if table.get(&key) { 0 } else { 1 };
        } else if operation == 2 {
            error_code = if table.insert(&key, 0) { 0 } else { 1 };
        } else if operation == 3 {
            error_code = if table.remove(&key) { 0 } else { 1 };
        } else if operation == 4 {
            if let Some(current) = table.value(&key) {
                if current == u64::MAX || !table.accepts_value(current + 1) {
                    assert(!op_ok::<T>(before, operation, key));
                    assert(!no_fault_from::<T>(before, cmd@, ops as int, index as int));
                    return None;
                }
            }
            error_code = if table.update(&key) { 0 } else { 1 };
        } else {
            error_code = 0;
        }
        let ghost step = apply_op(before, operation, key);
        assert(table@ == step.0);
        assert(error_code == step.1);
        let ghost prev = codes@;
        codes.set(index, error_code);
        assert(codes@.take(index as int + 1) =~= prev.take(index as int).push(error_code));
        assert(whole.1 =~= codes@.take(index as int + 1) + run_from(
            table@,
            cmd@,
            ops as int,
            index as int + 1,
        ).1);
        index = index + 1;
    }
    Some((codes, done))
}

/// Every code a command answers is 0 or 1, and there is one per operation.
pub proof fn law_codes_are_binary(m: Map<u64, u64>, cmd: Seq<u8>, ops: int, i: int)
    requires
        0 <= i <= ops,
    ensures
        run_from(m, cmd, ops, i).1.len() == ops - i,
        forall|x: int|
            0 <= x < ops - i ==> #[trigger] run_from(m, cmd, ops, i).1[x] == 0u8 || run_from(
                m,
                cmd,
                ops,
                i,
            ).1[x] == 1u8,
    decreases ops - i,
{
    if i < ops && op_at(cmd, i) != 0 {
        let step = apply_op(m, op_at(cmd, i), key_at(cmd, i));
        law_codes_are_binary(step.0, cmd, ops, i + 1);
        let rest = run_from(step.0, cmd, ops, i + 1);
        assert forall|x: int| 0 <= x < ops - i implies #[trigger] run_from(m, cmd, ops, i).1[x]
            == 0u8 || run_from(m, cmd, ops, i).1[x] == 1u8 by {
            if x > 0 {
                assert(run_from(m, cmd, ops, i).1[x] == rest.1[x - 1]);
            }
        }
    }
}

/// A close ends the command: the map is left as it was before the close, and
/// every later operation answers 0.
pub proof fn law_close_stops(m: Map<u64, u64>, cmd: Seq<u8>, ops: int, i: int)
    requires
        0 <= i < ops,
        op_at(cmd, i) == 0,
    ensures
        run_from(m, cmd, ops, i).0 == m,
        run_from(m, cmd, ops, i).2,
        forall|x: int| 0 <= x < ops - i ==> #[trigger] run_from(m, cmd, ops, i).1[x] == 0u8,
{
}

/// A lookup right after an insertion of the same key succeeds.
pub proof fn law_get_after_insert(m: Map<u64, u64>, key: u64)
    ensures
        apply_op(apply_op(m, 2, key).0, 1, key).1 == 0u8,
{
}

/// A lookup right after a removal of the same key fails.
pub proof fn law_get_after_remove(m: Map<u64, u64>, key: u64)
    ensures
        apply_op(apply_op(m, 3, key).0, 1, key).1 == 1u8,
{
}

/// An insertion succeeds exactly when a lookup of the same key fails.
pub proof fn law_insert_succeeds_iff_absent(m: Map<u64, u64>, key: u64)
    ensures
        (apply_op(m, 2, key).1 == 0u8) <==> (apply_op(m, 1, key).1 == 1u8),
{
}

/// An increment of a key that is not mapped fails and changes nothing.
pub proof fn law_update_of_absent_key(m: Map<u64, u64>, key: u64)
    requires
        !m.contains_key(key),
    ensures
        apply_op(m, 4, key) == (m, 1u8),
{
}

/// An increment after an insertion leaves the value 1.
pub proof fn law_update_after_insert(m: Map<u64, u64>, key: u64)
    ensures
        apply_op(apply_op(m, 2, key).0, 4, key).0[key] == 1,
        apply_op(apply_op(m, 2, key).0, 4, key).1 == 0u8,
{
}

/// A removal answers 0 exactly when the key is mapped before it, whatever value
/// the key holds; afterwards the key is not mapped and every other key is as it
/// was.
pub proof fn law_remove_code(m: Map<u64, u64>, key: u64)
    ensures
        (apply_op(m, 3, key).1 == 0u8) <==> m.contains_key(key),
        (apply_op(m, 3, key).1 == 1u8) <==> !m.contains_key(key),
        !apply_op(m, 3, key).0.contains_key(key),
        forall|k: u64|
            k != key ==> (#[trigger] apply_op(m, 3, key).0.contains_key(k) == m.contains_key(k))
                && (m.contains_key(k) ==> apply_op(m, 3, key).0[k] == m[k]),
{
}

/// A removal right after an insertion of the same key succeeds.
pub proof fn law_remove_after_insert(m: Map<u64, u64>, key: u64)
    ensures
        apply_op(apply_op(m, 2, key).0, 3, key).1 == 0u8,
{
}

/// In a command, an insertion of a key followed by a removal of the same key
/// answers 0 for the removal, whatever the map held before.
pub proof fn law_command_remove_after_insert(m: Map<u64, u64>, cmd: Seq<u8>, ops: int, i: int)
    requires
        0 <= i,
        i + 1 < ops,
        op_at(cmd, i) == 2,
        op_at(cmd, i + 1) == 3,
        key_at(cmd, i) == key_at(cmd, i + 1),
    ensures
        run_from(m, cmd, ops, i).1[1] == 0u8,
{
    let m1 = apply_op(m, 2, key_at(cmd, i)).0;
    assert(m1.contains_key(key_at(cmd, i)));
    let rest = run_from(m1, cmd, ops, i + 1);
    assert(rest.1[0] == 0u8);
    assert(run_from(m, cmd, ops, i).1 == seq![apply_op(m, 2, key_at(cmd, i)).1] + rest.1);
}

} // verus!
