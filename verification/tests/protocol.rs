use kvstore::command::Command;
use kvstore::resp::{encode_bulk_string, encode_error, encode_null, encode_simple_string, parse,
    request_args, ParseOutcome, RespValue};
use kvstore::store::Store;

#[test]
fn encoders_render_exact_replies() {
    assert_eq!(encode_simple_string("OK"), "+OK\r\n");
    assert_eq!(encode_error("ERR unknown command"), "-ERR unknown command\r\n");
    assert_eq!(encode_bulk_string("hello"), "$5\r\nhello\r\n");
    assert_eq!(encode_bulk_string(""), "$0\r\n\r\n");
    assert_eq!(encode_bulk_string("0123456789"), "$10\r\n0123456789\r\n");
    assert_eq!(encode_null(), "$-1\r\n");
}

#[test]
fn bulk_length_counts_bytes_not_characters() {
    // A two-character payload of three bytes.
    assert_eq!(encode_bulk_string("é!"), "$3\r\né!\r\n");
}

#[test]
fn from_vec_reads_get() {
    let cmd = Command::from_vec(vec!["GET".to_string(), "a".to_string()]).unwrap();
    assert!(matches!(cmd, Command::Get(k) if k == "a"));
}

#[test]
fn from_vec_reads_set_without_ttl() {
    let cmd = Command::from_vec(vec!["SET".to_string(), "a".to_string(), "1".to_string()]).unwrap();
    assert!(matches!(cmd, Command::Put(k, v, None) if k == "a" && v == "1"));
}

#[test]
fn from_vec_reads_set_with_ttl() {
    let cmd = Command::from_vec(vec![
        "SET".to_string(),
        "a".to_string(),
        "1".to_string(),
        "EX".to_string(),
        "30".to_string(),
    ])
    .unwrap();
    assert!(matches!(cmd, Command::Put(k, v, Some(30)) if k == "a" && v == "1"));
}

#[test]
fn from_vec_is_case_insensitive_on_verbs() {
    assert!(Command::from_vec(vec!["get".to_string(), "a".to_string()]).is_ok());
    assert!(
        Command::from_vec(vec![
            "sEt".to_string(),
            "a".to_string(),
            "1".to_string(),
            "ex".to_string(),
            "2".to_string(),
        ])
        .is_ok()
    );
}

#[test]
fn from_vec_rejects_empty() {
    assert!(matches!(Command::from_vec(vec![]), Err("ERR empty command")));
}

#[test]
fn from_vec_rejects_bad_ttl() {
    let args = vec![
        "SET".to_string(),
        "a".to_string(),
        "1".to_string(),
        "EX".to_string(),
        "soon".to_string(),
    ];
    assert!(matches!(Command::from_vec(args), Err("ERR invalid TTL")));
}

#[test]
fn from_vec_rejects_unknown_shapes() {
    assert!(matches!(
        Command::from_vec(vec!["DEL".to_string(), "a".to_string()]),
        Err("ERR unknown command")
    ));
    assert!(matches!(
        Command::from_vec(vec!["GET".to_string(), "a".to_string(), "b".to_string()]),
        Err("ERR unknown command")
    ));
    assert!(matches!(
        Command::from_vec(vec![
            "SET".to_string(),
            "a".to_string(),
            "1".to_string(),
            "PX".to_string(),
            "30".to_string(),
        ]),
        Err("ERR unknown command")
    ));
}

#[test]
fn execute_set_replies_ok_and_get_replies_value() {
    let mut s = Store::new(10);
    let set = Command::from_vec(vec!["SET".to_string(), "a".to_string(), "1".to_string()]).unwrap();
    assert_eq!(set.execute(&mut s, 100), "+OK\r\n");
    let get = Command::from_vec(vec!["GET".to_string(), "a".to_string()]).unwrap();
    assert_eq!(get.execute(&mut s, 100), "$1\r\n1\r\n");
    let miss = Command::from_vec(vec!["GET".to_string(), "b".to_string()]).unwrap();
    assert_eq!(miss.execute(&mut s, 100), "$-1\r\n");
}

#[test]
fn parse_reads_a_complete_request() {
    let wire = b"*2\r\n$3\r\nGET\r\n$1\r\na\r\n";
    match parse(wire) {
        ParseOutcome::Complete(v, used) => {
            assert_eq!(used, wire.len());
            let items = match v {
                RespValue::Array(items) => items,
                RespValue::BulkString(_) => panic!("expected an array"),
            };
            let args = request_args(items);
            assert_eq!(args, vec!["GET".to_string(), "a".to_string()]);
        },
        _ => panic!("expected a complete request"),
    }
}

#[test]
fn parse_leaves_trailing_bytes_for_the_next_request() {
    let wire = b"*1\r\n$4\r\nPING\r\n*1\r\n";
    match parse(wire) {
        ParseOutcome::Complete(_, used) => assert_eq!(used, 14),
        _ => panic!("expected a complete request"),
    }
}

#[test]
fn parse_asks_for_more_on_a_prefix() {
    let wire = b"*2\r\n$3\r\nGET\r\n$1\r\na\r\n";
    for cut in 0..wire.len() {
        match parse(&wire[..cut]) {
            ParseOutcome::Incomplete => {},
            _ => panic!("every proper prefix is incomplete, cut at {}", cut),
        }
    }
}

#[test]
fn parse_rejects_other_leading_bytes() {
    assert!(matches!(parse(b"PING\r\n"), ParseOutcome::Malformed));
    assert!(matches!(parse(b"$3\r\nGET\r\n"), ParseOutcome::Malformed));
}

#[test]
fn parse_rejects_bad_counts_and_framing() {
    assert!(matches!(parse(b"*x\r\n"), ParseOutcome::Malformed));
    assert!(matches!(parse(b"*1\r\n$2\r\nab!\r\n"), ParseOutcome::Malformed));
    assert!(matches!(
        parse(b"*99999999999999999999999999\r\n"),
        ParseOutcome::Malformed
    ));
}

#[test]
fn parse_rejects_non_utf8_payloads() {
    let wire = b"*1\r\n$2\r\n\xff\xfe\r\n";
    assert!(matches!(parse(wire), ParseOutcome::Malformed));
}

#[test]
fn request_args_drops_nested_arrays() {
    let items = vec![
        RespValue::BulkString("GET".to_string()),
        RespValue::Array(vec![]),
        RespValue::BulkString("a".to_string()),
    ];
    assert_eq!(request_args(items), vec!["GET".to_string(), "a".to_string()]);
}

#[test]
fn wire_to_reply_end_to_end() {
    let mut s = Store::new(10);
    let requests: [&[u8]; 3] = [
        b"*3\r\n$3\r\nSET\r\n$1\r\na\r\n$1\r\n1\r\n",
        b"*2\r\n$3\r\nGET\r\n$1\r\na\r\n",
        b"*2\r\n$3\r\nGET\r\n$1\r\nz\r\n",
    ];
    let mut replies = Vec::new();
    for wire in requests {
        match parse(wire) {
            ParseOutcome::Complete(RespValue::Array(items), _) => {
                let args = request_args(items);
                let reply = match Command::from_vec(args) {
                    Ok(cmd) => cmd.execute(&mut s, 100),
                    Err(m) => encode_error(m),
                };
                replies.push(reply);
            },
            _ => panic!("expected a complete request"),
        }
    }
    assert_eq!(replies, vec!["+OK\r\n", "$1\r\n1\r\n", "$-1\r\n"]);
}
