//! The line protocols: one text command in, one text reply out.
use vstd::prelude::*;
use ::dashmap::DashMap;
use crate::buckets::{buckets_wf, clear_entry, contents, lemma_put_entry, lookup, put_entry, removal};
use crate::hashmap::StripedHashTable;
use crate::adapters::dashmap_adapter::{
    dashmap128_clear, dashmap128_contents, dashmap128_get, dashmap128_insert, dashmap128_remove,
};
use crate::text::{chars_equal, parse_usize, parsed_usize, push_decimal, push_str, split_words, decimal, words};

verus! {

/// The reply to a malformed command of the table protocol.
pub open spec fn enter_correctly() -> Seq<char> {
    "0\n"@ + "Server: Enter the command correctly"@
}

/// The reply to an unknown command.
pub open spec fn wrong_command() -> Seq<char> {
    "1\n"@ + "Server: FAILED - Wrong command\n"@
}

/// The key of a command: its second word, read as a `usize`.
pub open spec fn command_key(cmd: Seq<char>) -> usize {
    parsed_usize(words(cmd)[1]).unwrap()
}

/// The value of a command: its third word, read as a `usize`.
pub open spec fn command_value(cmd: Seq<char>) -> usize {
    parsed_usize(words(cmd)[2]).unwrap()
}

/// The command of the table protocol is read without fault: unless it closes or
/// is too short, its second word is a number, and a `PUT` has a third word that
/// is a number too.
pub open spec fn table_command_ok(cmd: Seq<char>) -> bool {
    let w = words(cmd);
    cmd == "CLOSE"@ || w.len() < 2 || {
        &&& parsed_usize(w[1]) is Some
        &&& w[0] == "PUT"@ ==> w.len() >= 3 && parsed_usize(w[2]) is Some
    }
}

/// The command ends the connection: `CLOSE`, or a command of fewer than two words.
pub open spec fn table_command_ends(cmd: Seq<char>) -> bool {
    cmd == "CLOSE"@ || words(cmd).len() < 2
}

/// The reply of the table protocol to `cmd` on a table that maps `m`.
pub open spec fn table_reply(m: Map<usize, usize>, cmd: Seq<char>) -> Seq<char> {
    let w = words(cmd);
    if cmd == "CLOSE"@ {
        Seq::empty()
    } else if w.len() < 2 {
        enter_correctly()
    } else if w[0] == "GET"@ {
        match lookup(m, command_key(cmd)) {
            Ok(v) => decimal(v as nat) + "\n"@,
            Err(_) => "0\n"@,
        }
    } else if w[0] == "PUT"@ {
        "0\n"@
    } else if w[0] == "REMOVE"@ {
        match removal(m, command_key(cmd)) {
            Ok(_) => "0\n"@,
            Err(_) => "1\n"@,
        }
    } else {
        wrong_command()
    }
}

/// The buckets of the table after `cmd`.
pub open spec fn table_after(bs: Seq<Seq<crate::buckets::Entry>>, cmd: Seq<char>) -> Seq<
    Seq<crate::buckets::Entry>,
> {
    let w = words(cmd);
    if table_command_ends(cmd) {
        bs
    } else if w[0] == "PUT"@ {
        put_entry(bs, command_key(cmd), command_value(cmd))
    } else if w[0] == "REMOVE"@ {
        clear_entry(bs, command_key(cmd))
    } else {
        bs
    }
}

/// Whether `cmd` is read without fault by the table protocol.
pub fn table_command_accepted(cmd: &Vec<char>) -> (r: bool)
    ensures
        r == table_command_ok(cmd@),
{
    if chars_equal(cmd, "CLOSE") {
        return true;
    }
    let w = split_words(cmd);
    if w.len() < 2 {
        return true;
    }
    if parse_usize(&w[1]).is_none() {
        return false;
    }
    if chars_equal(&w[0], "PUT") {
        w.len() >= 3 && parse_usize(&w[2]).is_some()
    } else {
        true
    }
}

/// Answers one command of the table protocol: `GET k` replies the value of `k`
/// (or 0), `PUT k v` maps `k` to `v`, `REMOVE k` unmaps `k`; `CLOSE` or a
/// command of fewer than two words ends the connection. Gives the reply and
/// whether the connection ends.
pub fn handle_table_command(table: &mut StripedHashTable, cmd: &Vec<char>) -> (r: (Vec<char>, bool))
    requires
        old(table).wf(),
        old(table)@.len() > 0,
        table_command_ok(cmd@),
    ensures
        final(table).wf(),
        final(table)@ == table_after(old(table)@, cmd@),
        r.0@ == table_reply(old(table).map(), cmd@),
        r.1 == table_command_ends(cmd@),
{
    proof {
        reveal_strlit("GET");
        reveal_strlit("PUT");
        reveal_strlit("REMOVE");
        assert("GET"@[0] != "PUT"@[0]);
        assert("GET"@ != "PUT"@);
        assert("GET"@.len() != "REMOVE"@.len());
        assert("PUT"@.len() != "REMOVE"@.len());
    }
    let mut out: Vec<char> = Vec::new();
    if chars_equal(cmd, "CLOSE") {
        return (out, true);
    }
    let w = split_words(cmd);
    if w.len() < 2 {
        push_str(&mut out, "0\n");
        push_str(&mut out, "Server: Enter the command correctly");
        return (out, true);
    }
    let key = match parse_usize(&w[1]) {
        Some(k) => k,
        None => {
            return (out, true);
        },
    };
    assert(w@[0]@ == words(cmd@)[0]);
    assert(w@[1]@ == words(cmd@)[1]);
    assert(key == command_key(cmd@));
    if chars_equal(&w[0], "GET") {
        match table.get(key) {
            Ok(value) => {
                push_decimal(&mut out, value);
                push_str(&mut out, "\n");
            },
            Err(_) => {
                push_str(&mut out, "0\n");
            },
        }
    } else if chars_equal(&w[0], "PUT") {
        let value = match parse_usize(&w[2]) {
            Some(v) => v,
            None => {
                return (out, true);
            },
        };
        assert(w@[2]@ == words(cmd@)[2]);
        assert(value == command_value(cmd@));
        match table.insert_or_update(key, value) {
            Ok(_) => push_str(&mut out, "0\n"),
            Err(_) => push_str(&mut out, "1\n"),
        }
    } else if chars_equal(&w[0], "REMOVE") {
        match table.remove(key) {
            Ok(_) => push_str(&mut out, "0\n"),
            Err(_) => push_str(&mut out, "1\n"),
        }
    } else {
        push_str(&mut out, "1\n");
        push_str(&mut out, "Server: FAILED - Wrong command\n");
    }
    (out, false)
}

/// The key of a command of the shared-map protocol, widened to `u128`.
pub open spec fn wide_key(cmd: Seq<char>) -> u128 {
    command_key(cmd) as u128
}

/// The command of the shared-map protocol is read without fault on a map that
/// holds `m`: it is empty, or it has at least two words and its second is a
/// number; an `INSERT` has a third word that is a number; an `UPDATE` does not
/// raise a value past `u128::MAX`.
pub open spec fn shared_command_ok(m: Map<u128, u128>, cmd: Seq<char>) -> bool {
    let w = words(cmd);
    cmd.len() == 0 || {
        &&& w.len() >= 2
        &&& parsed_usize(w[1]) is Some
        &&& w[0] == "INSERT"@ ==> w.len() >= 3 && parsed_usize(w[2]) is Some
        &&& w[0] == "UPDATE"@ && m.contains_key(wide_key(cmd)) ==> m[wide_key(cmd)] < u128::MAX
    }
}

/// The command ends the connection: `RESET` or `FINISH`.
pub open spec fn shared_command_ends(cmd: Seq<char>) -> bool {
    cmd.len() > 0 && (words(cmd)[0] == "RESET"@ || words(cmd)[0] == "FINISH"@)
}

/// The reply of the shared-map protocol to `cmd` on a map that holds `m`.
pub open spec fn shared_reply(m: Map<u128, u128>, cmd: Seq<char>) -> Seq<char> {
    let w = words(cmd);
    let found = m.contains_key(wide_key(cmd));
    if cmd.len() == 0 || shared_command_ends(cmd) {
        Seq::empty()
    } else if w[0] == "GET"@ || w[0] == "REMOVE"@ || w[0] == "UPDATE"@ {
        if found {
            "0\n"@
        } else {
            "1\n"@
        }
    } else if w[0] == "INSERT"@ {
        if found {
            "1\n"@
        } else {
            "0\n"@
        }
    } else {
        wrong_command()
    }
}

/// What the map holds after `cmd`.
pub open spec fn shared_after(m: Map<u128, u128>, cmd: Seq<char>) -> Map<u128, u128> {
    let w = words(cmd);
    let k = wide_key(cmd);
    if cmd.len() == 0 {
        m
    } else if w[0] == "RESET"@ {
        Map::empty()
    } else if w[0] == "INSERT"@ {
        m.insert(k, command_value(cmd) as u128)
    } else if w[0] == "REMOVE"@ {
        m.remove(k)
    } else if w[0] == "UPDATE"@ && m.contains_key(k) {
        m.insert(k, (m[k] + 1) as u128)
    } else {
        m
    }
}

/// Whether `cmd` is read without fault by the shared-map protocol on `map`.
pub fn shared_command_accepted(map: &DashMap<u128, u128>, cmd: &Vec<char>) -> (r: bool)
    ensures
        r == shared_command_ok(dashmap128_contents(*map), cmd@),
{
    if cmd.len() == 0 {
        return true;
    }
    let w = split_words(cmd);
    if w.len() < 2 {
        return false;
    }
    assert(w@[0]@ == words(cmd@)[0]);
    assert(w@[1]@ == words(cmd@)[1]);
    let key = match parse_usize(&w[1]) {
        Some(k) => k as u128,
        None => {
            return false;
        },
    };
    if chars_equal(&w[0], "INSERT") {
        if w.len() < 3 {
            return false;
        }
        assert(w@[2]@ == words(cmd@)[2]);
        if parse_usize(&w[2]).is_none() {
            return false;
        }
    }
    if chars_equal(&w[0], "UPDATE") {
        match dashmap128_get(map, &key) {
            Some(v) => v < u128::MAX,
            None => true,
        }
    } else {
        proof {
            reveal_strlit("INSERT");
            reveal_strlit("UPDATE");
            assert("INSERT"@.len() != "UPDATE"@.len() || "INSERT"@[0] != "UPDATE"@[0]);
        }
        true
    }
}

/// Answers one command of the shared-map protocol: `GET k`, `INSERT k v`,
/// `REMOVE k` and `UPDATE k` (add one) reply 0 or 1; `RESET` clears the map and
/// ends the connection, `FINISH` ends it; an empty command is passed over.
/// Gives the reply and whether the connection ends.
pub fn handle_shared_command(map: &mut DashMap<u128, u128>, cmd: &Vec<char>) -> (r: (Vec<char>, bool))
    requires
        shared_command_ok(dashmap128_contents(*old(map)), cmd@),
    ensures
        dashmap128_contents(*final(map)) == shared_after(dashmap128_contents(*old(map)), cmd@),
        r.0@ == shared_reply(dashmap128_contents(*old(map)), cmd@),
        r.1 == shared_command_ends(cmd@),
{
    proof {
        reveal_strlit("GET");
        reveal_strlit("INSERT");
        reveal_strlit("REMOVE");
        reveal_strlit("UPDATE");
        reveal_strlit("RESET");
        reveal_strlit("FINISH");
        assert("GET"@.len() == 3 && "RESET"@.len() == 5 && "FINISH"@.len() == 6);
        assert("INSERT"@[0] == 'I' && "REMOVE"@[0] == 'R' && "UPDATE"@[0] == 'U');
        assert("FINISH"@[0] == 'F' && "RESET"@[0] == 'R' && "GET"@[0] == 'G');
        assert("INSERT"@.len() == 6 && "REMOVE"@.len() == 6 && "UPDATE"@.len() == 6);
    }
    let mut out: Vec<char> = Vec::new();
    if cmd.len() == 0 {
        return (out, false);
    }
    let w = split_words(cmd);
    assert(w@[0]@ == words(cmd@)[0]);
    assert(w@[1]@ == words(cmd@)[1]);
    let key = match parse_usize(&w[1]) {
        Some(k) => k as u128,
        None => {
            return (out, true);
        },
    };
    assert(key == wide_key(cmd@));
    if chars_equal(&w[0], "RESET") {
        dashmap128_clear(map);
        return (out, true);
    }
    if chars_equal(&w[0], "FINISH") {
        return (out, true);
    } else if chars_equal(&w[0], "GET") {
        match dashmap128_get(map, &key) {
            Some(_) => push_str(&mut out, "0\n"),
            None => push_str(&mut out, "1\n"),
        }
    } else if chars_equal(&w[0], "INSERT") {
        assert(w@[2]@ == words(cmd@)[2]);
        let value = match parse_usize(&w[2]) {
            Some(v) => v as u128,
            None => {
                return (out, true);
            },
        };
        match dashmap128_insert(map, key, value) {
            Some(_) => push_str(&mut out, "1\n"),
            None => push_str(&mut out, "0\n"),
        }
    } else if chars_equal(&w[0], "REMOVE") {
        match dashmap128_remove(map, &key) {
            Some(_) => push_str(&mut out, "0\n"),
            None => push_str(&mut out, "1\n"),
        }
    } else if chars_equal(&w[0], "UPDATE") {
        match dashmap128_get(map, &key) {
            Some(v) => {
                dashmap128_insert(map, key, v + 1);
                push_str(&mut out, "0\n");
            },
            None => push_str(&mut out, "1\n"),
        }
    } else {
        push_str(&mut out, "1\n");
        push_str(&mut out, "Server: FAILED - Wrong command\n");
    }
    (out, false)
}

/// Answers one command of the shared-map protocol when it can be read without
/// fault on `map` (see `handle_shared_command`); `None`, leaving the map as it
/// was, when it cannot.
pub fn serve_shared_command(map: &mut DashMap<u128, u128>, cmd: &Vec<char>) -> (r: Option<
    (Vec<char>, bool),
>)
    ensures
        match r {
            Some(out) => {
                &&& shared_command_ok(dashmap128_contents(*old(map)), cmd@)
                &&& dashmap128_contents(*final(map)) == shared_after(
                    dashmap128_contents(*old(map)),
                    cmd@,
                )
                &&& out.0@ == shared_reply(dashmap128_contents(*old(map)), cmd@)
                &&& out.1 == shared_command_ends(cmd@)
            },
            None => !shared_command_ok(dashmap128_contents(*old(map)), cmd@) && *final(map)
                == *old(map),
        },
{
    if shared_command_accepted(map, cmd) {
        Some(handle_shared_command(map, cmd))
    } else {
        None
    }
}

/// After `PUT k v`, a `GET k` replies `v` and a newline.
pub proof fn law_get_after_put(
    bs: Seq<Seq<crate::buckets::Entry>>,
    put_cmd: Seq<char>,
    get_cmd: Seq<char>,
)
    requires
        buckets_wf(bs),
        bs.len() > 0,
        table_command_ok(put_cmd),
        table_command_ok(get_cmd),
        !table_command_ends(put_cmd),
        !table_command_ends(get_cmd),
        words(put_cmd)[0] == "PUT"@,
        words(get_cmd)[0] == "GET"@,
        command_key(get_cmd) == command_key(put_cmd),
    ensures
        table_reply(contents(table_after(bs, put_cmd)), get_cmd) == decimal(
            command_value(put_cmd) as nat,
        ) + "\n"@,
{
    lemma_put_entry(bs, command_key(put_cmd), command_value(put_cmd));
}

/// After `REMOVE k`, a `GET k` replies 0 and a newline.
pub proof fn law_get_after_remove(
    bs: Seq<Seq<crate::buckets::Entry>>,
    remove_cmd: Seq<char>,
    get_cmd: Seq<char>,
)
    requires
        buckets_wf(bs),
        bs.len() > 0,
        table_command_ok(remove_cmd),
        table_command_ok(get_cmd),
        !table_command_ends(remove_cmd),
        !table_command_ends(get_cmd),
        words(remove_cmd)[0] == "REMOVE"@,
        words(get_cmd)[0] == "GET"@,
        command_key(get_cmd) == command_key(remove_cmd),
    ensures
        table_reply(contents(table_after(bs, remove_cmd)), get_cmd) == "0\n"@,
{
    reveal_strlit("PUT");
    reveal_strlit("REMOVE");
    assert("PUT"@.len() != "REMOVE"@.len());
    let k = command_key(remove_cmd);
    if crate::buckets::holds_key(crate::buckets::home(bs, k), k) {
        crate::buckets::lemma_clear_entry(bs, k);
    } else {
        assert(clear_entry(bs, k) == bs);
        assert(!contents(bs).contains_key(k));
    }
}

/// After `INSERT k v`, a `GET k` on the shared map replies 0 and a newline.
pub proof fn law_shared_get_after_insert(m: Map<u128, u128>, insert_cmd: Seq<char>, get_cmd: Seq<char>)
    requires
        shared_command_ok(m, insert_cmd),
        insert_cmd.len() > 0,
        get_cmd.len() > 0,
        words(insert_cmd)[0] == "INSERT"@,
        words(get_cmd)[0] == "GET"@,
        command_key(get_cmd) == command_key(insert_cmd),
    ensures
        shared_reply(shared_after(m, insert_cmd), get_cmd) == "0\n"@,
{
    reveal_strlit("INSERT");
    reveal_strlit("RESET");
    reveal_strlit("FINISH");
    reveal_strlit("GET");
    assert("INSERT"@.len() != "RESET"@.len());
    assert("INSERT"@[0] != "FINISH"@[0]);
    assert("GET"@.len() != "RESET"@.len() && "GET"@.len() != "FINISH"@.len());
}

/// The reply to `PUT k v` is "0" and a newline, whatever the table maps: whether
/// `k` was mapped before makes no difference.
pub proof fn law_put_replies_zero(m: Map<usize, usize>, cmd: Seq<char>)
    requires
        !table_command_ends(cmd),
        words(cmd)[0] == "PUT"@,
    ensures
        table_reply(m, cmd) == "0\n"@,
{
    reveal_strlit("GET");
    reveal_strlit("PUT");
    assert("GET"@[0] != "PUT"@[0]);
}

/// `GET k` leaves the table's buckets, and so what it maps, exactly as they were,
/// and replies the value of `k` and a newline, or "0" and a newline when `k` is
/// not mapped.
pub proof fn law_get_leaves_table(bs: Seq<Seq<crate::buckets::Entry>>, cmd: Seq<char>)
    requires
        !table_command_ends(cmd),
        words(cmd)[0] == "GET"@,
    ensures
        table_after(bs, cmd) == bs,
        contents(table_after(bs, cmd)) == contents(bs),
        table_reply(contents(bs), cmd) == if contents(bs).contains_key(command_key(cmd)) {
            decimal(contents(bs)[command_key(cmd)] as nat) + "\n"@
        } else {
            "0\n"@
        },
{
    reveal_strlit("GET");
    reveal_strlit("PUT");
    reveal_strlit("REMOVE");
    assert("GET"@[0] != "PUT"@[0]);
    assert("GET"@.len() != "REMOVE"@.len());
}

/// The reply to `REMOVE k` is "1" and a newline exactly when `k` is not mapped
/// before the command, and "0" and a newline when it is.
pub proof fn law_remove_reply(m: Map<usize, usize>, cmd: Seq<char>)
    requires
        !table_command_ends(cmd),
        words(cmd)[0] == "REMOVE"@,
    ensures
        (table_reply(m, cmd) == "1\n"@) <==> !m.contains_key(command_key(cmd)),
        (table_reply(m, cmd) == "0\n"@) <==> m.contains_key(command_key(cmd)),
{
    reveal_strlit("GET");
    reveal_strlit("PUT");
    reveal_strlit("REMOVE");
    reveal_strlit("0\n");
    reveal_strlit("1\n");
    assert("REMOVE"@.len() != "GET"@.len());
    assert("REMOVE"@.len() != "PUT"@.len());
    assert("0\n"@[0] != "1\n"@[0]);
}

/// A `GET k` of a key that was never mapped, then `REMOVE k`: the removal finds
/// nothing and replies "1" and a newline.
pub proof fn law_remove_after_get_of_absent_key(
    bs: Seq<Seq<crate::buckets::Entry>>,
    get_cmd: Seq<char>,
    remove_cmd: Seq<char>,
)
    requires
        !table_command_ends(get_cmd),
        !table_command_ends(remove_cmd),
        words(get_cmd)[0] == "GET"@,
        words(remove_cmd)[0] == "REMOVE"@,
        command_key(get_cmd) == command_key(remove_cmd),
        !contents(bs).contains_key(command_key(get_cmd)),
    ensures
        table_reply(contents(table_after(bs, get_cmd)), remove_cmd) == "1\n"@,
{
    law_get_leaves_table(bs, get_cmd);
    law_remove_reply(contents(table_after(bs, get_cmd)), remove_cmd);
}

proof fn lemma_shared_words_differ()
    ensures
        "GET"@ != "RESET"@,
        "GET"@ != "FINISH"@,
        "INSERT"@ != "RESET"@,
        "INSERT"@ != "FINISH"@,
        "REMOVE"@ != "RESET"@,
        "REMOVE"@ != "FINISH"@,
        "UPDATE"@ != "RESET"@,
        "UPDATE"@ != "FINISH"@,
        "GET"@ != "INSERT"@,
        "GET"@ != "REMOVE"@,
        "GET"@ != "UPDATE"@,
        "INSERT"@ != "REMOVE"@,
        "INSERT"@ != "UPDATE"@,
        "REMOVE"@ != "UPDATE"@,
        "0\n"@ != "1\n"@,
{
    reveal_strlit("GET");
    reveal_strlit("INSERT");
    reveal_strlit("REMOVE");
    reveal_strlit("UPDATE");
    reveal_strlit("RESET");
    reveal_strlit("FINISH");
    reveal_strlit("0\n");
    reveal_strlit("1\n");
    assert("GET"@.len() != "RESET"@.len());
    assert("GET"@.len() != "FINISH"@.len());
    assert("GET"@.len() != "INSERT"@.len());
    assert("GET"@.len() != "REMOVE"@.len());
    assert("GET"@.len() != "UPDATE"@.len());
    assert("INSERT"@.len() != "RESET"@.len());
    assert("REMOVE"@.len() != "RESET"@.len());
    assert("UPDATE"@.len() != "RESET"@.len());
    assert("INSERT"@[0] != "FINISH"@[0]);
    assert("REMOVE"@[0] != "FINISH"@[0]);
    assert("UPDATE"@[0] != "FINISH"@[0]);
    assert("INSERT"@[0] != "REMOVE"@[0]);
    assert("INSERT"@[0] != "UPDATE"@[0]);
    assert("REMOVE"@[0] != "UPDATE"@[0]);
    assert("0\n"@[0] != "1\n"@[0]);
}

/// On the shared map, `REMOVE k` replies "1" and a newline exactly when `k` is not
/// in the map before the command, and "0" and a newline when it is; afterwards
/// `k` is not in the map and every other key is as it was.
pub proof fn law_shared_remove(m: Map<u128, u128>, cmd: Seq<char>)
    requires
        cmd.len() > 0,
        words(cmd)[0] == "REMOVE"@,
    ensures
        (shared_reply(m, cmd) == "1\n"@) <==> !m.contains_key(wide_key(cmd)),
        (shared_reply(m, cmd) == "0\n"@) <==> m.contains_key(wide_key(cmd)),
        !shared_after(m, cmd).contains_key(wide_key(cmd)),
        forall|k: u128|
            k != wide_key(cmd) ==> (#[trigger] shared_after(m, cmd).contains_key(k)
                == m.contains_key(k)) && (m.contains_key(k) ==> shared_after(m, cmd)[k] == m[k]),
{
    lemma_shared_words_differ();
}

/// On the shared map, `GET k` leaves the map as it was and replies "0" and a
/// newline exactly when `k` is in it, "1" and a newline otherwise.
pub proof fn law_shared_get(m: Map<u128, u128>, cmd: Seq<char>)
    requires
        cmd.len() > 0,
        words(cmd)[0] == "GET"@,
    ensures
        shared_after(m, cmd) == m,
        (shared_reply(m, cmd) == "0\n"@) <==> m.contains_key(wide_key(cmd)),
        (shared_reply(m, cmd) == "1\n"@) <==> !m.contains_key(wide_key(cmd)),
{
    lemma_shared_words_differ();
}

/// On the shared map, `INSERT k v` replies "0" and a newline exactly when `k` was
/// not in the map, "1" and a newline when it was; either way `k` then holds `v`.
pub proof fn law_shared_insert(m: Map<u128, u128>, cmd: Seq<char>)
    requires
        cmd.len() > 0,
        words(cmd)[0] == "INSERT"@,
    ensures
        (shared_reply(m, cmd) == "0\n"@) <==> !m.contains_key(wide_key(cmd)),
        (shared_reply(m, cmd) == "1\n"@) <==> m.contains_key(wide_key(cmd)),
        shared_after(m, cmd).contains_key(wide_key(cmd)),
        shared_after(m, cmd)[wide_key(cmd)] == command_value(cmd) as u128,
{
    lemma_shared_words_differ();
}

/// On the shared map, `UPDATE k` replies "0" and a newline and adds one to the
/// value of `k` when `k` is in the map; otherwise it replies "1" and a newline
/// and leaves the map as it was.
pub proof fn law_shared_update(m: Map<u128, u128>, cmd: Seq<char>)
    requires
        shared_command_ok(m, cmd),
        cmd.len() > 0,
        words(cmd)[0] == "UPDATE"@,
    ensures
        (shared_reply(m, cmd) == "0\n"@) <==> m.contains_key(wide_key(cmd)),
        (shared_reply(m, cmd) == "1\n"@) <==> !m.contains_key(wide_key(cmd)),
        m.contains_key(wide_key(cmd)) ==> shared_after(m, cmd)[wide_key(cmd)] == m[wide_key(cmd)]
            + 1,
        !m.contains_key(wide_key(cmd)) ==> shared_after(m, cmd) == m,
{
    lemma_shared_words_differ();
}

} // verus!
