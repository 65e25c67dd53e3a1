use dashmap::DashMap;
use striped_maps::hashmap::StripedHashTable;
use striped_maps::text::{parse_usize, push_decimal, split_words};
use striped_maps::text_protocol::{
    handle_shared_command, handle_table_command, serve_shared_command, shared_command_accepted,
    table_command_accepted,
};

fn chars(s: &str) -> Vec<char> {
    s.chars().collect()
}

fn text(v: &[char]) -> String {
    v.iter().collect()
}

#[test]
fn split_words_like_split_whitespace() {
    for s in ["", "  ", "GET 5", "  PUT\t3  4\n", "a\u{a0}b\u{2003}c", "x"] {
        let w: Vec<String> = split_words(&chars(s)).iter().map(|w| text(w)).collect();
        let expected: Vec<String> = s.split_whitespace().map(|x| x.to_string()).collect();
        assert_eq!(w, expected);
    }
}

#[test]
fn parse_usize_like_str_parse() {
    for s in ["0", "12", "+12", "+", "", "-1", "1a", "18446744073709551615", "18446744073709551616", "007"] {
        assert_eq!(parse_usize(&chars(s)), s.parse::<usize>().ok(), "{}", s);
    }
}

#[test]
fn decimal_digits() {
    for n in [0usize, 7, 10, 12345, usize::MAX] {
        let mut out = Vec::new();
        push_decimal(&mut out, n);
        assert_eq!(text(&out), n.to_string());
    }
}

fn table_step(t: &mut StripedHashTable, cmd: &str) -> (String, bool) {
    let c = chars(cmd);
    assert!(table_command_accepted(&c));
    let (reply, ends) = handle_table_command(t, &c);
    (text(&reply), ends)
}

#[test]
fn table_protocol_session() {
    let mut t = StripedHashTable::with_capacity(8);
    assert_eq!(table_step(&mut t, "GET 3"), ("0\n".to_string(), false));
    assert_eq!(table_step(&mut t, "PUT 3 9"), ("0\n".to_string(), false));
    assert_eq!(table_step(&mut t, "GET 3"), ("9\n".to_string(), false));
    assert_eq!(table_step(&mut t, "REMOVE 3"), ("0\n".to_string(), false));
    assert_eq!(table_step(&mut t, "REMOVE 3"), ("1\n".to_string(), false));
    assert_eq!(table_step(&mut t, "GET 3"), ("0\n".to_string(), false));
    assert_eq!(
        table_step(&mut t, "FETCH 3"),
        ("1\nServer: FAILED - Wrong command\n".to_string(), false)
    );
    assert_eq!(
        table_step(&mut t, "GET"),
        ("0\nServer: Enter the command correctly".to_string(), true)
    );
    assert_eq!(table_step(&mut t, "CLOSE"), (String::new(), true));
}

#[test]
fn table_protocol_rejects_bad_numbers() {
    assert!(!table_command_accepted(&chars("GET x")));
    assert!(!table_command_accepted(&chars("PUT 3")));
    assert!(!table_command_accepted(&chars("PUT 3 y")));
    assert!(table_command_accepted(&chars("HELLO 3")));
    assert!(table_command_accepted(&chars("")));
}

fn shared_step(m: &mut DashMap<u128, u128>, cmd: &str) -> (String, bool) {
    let c = chars(cmd);
    assert!(shared_command_accepted(m, &c));
    let (reply, ends) = handle_shared_command(m, &c);
    (text(&reply), ends)
}

#[test]
fn shared_protocol_session() {
    let mut m: DashMap<u128, u128> = DashMap::new();
    assert_eq!(shared_step(&mut m, ""), (String::new(), false));
    assert_eq!(shared_step(&mut m, "GET 4"), ("1\n".to_string(), false));
    assert_eq!(shared_step(&mut m, "INSERT 4 10"), ("0\n".to_string(), false));
    assert_eq!(shared_step(&mut m, "INSERT 4 11"), ("1\n".to_string(), false));
    assert_eq!(shared_step(&mut m, "UPDATE 4"), ("0\n".to_string(), false));
    assert_eq!(*m.get(&4).unwrap(), 12);
    assert_eq!(shared_step(&mut m, "UPDATE 5"), ("1\n".to_string(), false));
    assert_eq!(shared_step(&mut m, "REMOVE 4"), ("0\n".to_string(), false));
    assert_eq!(shared_step(&mut m, "GET 4"), ("1\n".to_string(), false));
    assert_eq!(
        shared_step(&mut m, "PUT 4 1"),
        ("1\nServer: FAILED - Wrong command\n".to_string(), false)
    );
    shared_step(&mut m, "INSERT 6 1");
    assert_eq!(shared_step(&mut m, "RESET 0"), (String::new(), true));
    assert!(m.is_empty());
    assert_eq!(shared_step(&mut m, "FINISH 0"), (String::new(), true));
}

#[test]
fn shared_protocol_rejects_short_commands() {
    let m: DashMap<u128, u128> = DashMap::new();
    assert!(!shared_command_accepted(&m, &chars("RESET")));
    assert!(!shared_command_accepted(&m, &chars("  ")));
    assert!(!shared_command_accepted(&m, &chars("INSERT 1")));
}

#[test]
fn serve_shared_command_refuses_malformed() {
    let mut m: DashMap<u128, u128> = DashMap::new();
    assert!(serve_shared_command(&mut m, &chars("GET")).is_none());
    let (reply, ends) = serve_shared_command(&mut m, &chars("INSERT 2 3")).unwrap();
    assert_eq!(text(&reply), "0\n");
    assert!(!ends);
    assert_eq!(*m.get(&2).unwrap(), 3);
}
