use secret_storage_plus::cli::{assert_handle_failure, code_hash_for, event_attribute, trim_newline};
use secret_storage_plus::cli_types::{
    ListCodeResponse, TxQuery, TxQueryEvents, TxQueryKeyValue, TxQueryLogs,
};

fn kv(k: &str, v: &str) -> TxQueryKeyValue {
    TxQueryKeyValue { msg_key: k.to_string(), value: v.to_string() }
}

fn query_with(attrs: Vec<TxQueryKeyValue>, raw_log: &str) -> TxQuery {
    TxQuery {
        height: "1".to_string(),
        txhash: "AB".to_string(),
        data: String::new(),
        raw_log: raw_log.to_string(),
        logs: vec![TxQueryLogs {
            msg_index: 0,
            log: String::new(),
            events: vec![TxQueryEvents { msg_type: "message".to_string(), attributes: attrs }],
        }],
        gas_wanted: "10".to_string(),
        gas_used: "5".to_string(),
        timestamp: String::new(),
    }
}

#[test]
fn event_attribute_finds_first_match() {
    let q = query_with(
        vec![kv("action", "store"), kv("code_id", "42"), kv("code_id", "43")],
        "",
    );
    assert_eq!(event_attribute(&q, "code_id"), Some("42".to_string()));
    assert_eq!(event_attribute(&q, "contract_address"), None);
    let mut empty = q.clone();
    empty.logs = vec![];
    assert_eq!(event_attribute(&empty, "code_id"), None);
}

#[test]
fn handle_failure_is_detected_in_the_log() {
    let failed = query_with(vec![], "x: failed to execute message; message index: 0");
    assert!(assert_handle_failure(failed));
    let ok = query_with(vec![], "[]");
    assert!(!assert_handle_failure(ok));
}

#[test]
fn code_hash_is_found_by_decimal_id() {
    let list = vec![
        ListCodeResponse { code_id: 7, creator: "a".to_string(), code_hash: "h7".to_string() },
        ListCodeResponse { code_id: 42, creator: "b".to_string(), code_hash: "h42".to_string() },
        ListCodeResponse { code_id: 0, creator: "c".to_string(), code_hash: "h0".to_string() },
    ];
    assert_eq!(code_hash_for(&list, "42"), Some("h42".to_string()));
    assert_eq!(code_hash_for(&list, "0"), Some("h0".to_string()));
    assert_eq!(code_hash_for(&list, "042"), None);
    assert_eq!(code_hash_for(&list, "4"), None);
    let big = vec![ListCodeResponse {
        code_id: u128::MAX,
        creator: String::new(),
        code_hash: "max".to_string(),
    }];
    assert_eq!(
        code_hash_for(&big, "340282366920938463463374607431768211455"),
        Some("max".to_string())
    );
}

#[test]
fn trim_newline_drops_one_line_break() {
    let mut s = "secret1abc\n".to_string();
    trim_newline(&mut s);
    assert_eq!(s, "secret1abc");
    let mut s = "secret1abc\r\n".to_string();
    trim_newline(&mut s);
    assert_eq!(s, "secret1abc");
    let mut s = "abc\r".to_string();
    trim_newline(&mut s);
    assert_eq!(s, "abc\r");
    let mut s = "\n\n".to_string();
    trim_newline(&mut s);
    assert_eq!(s, "\n");
    let mut s = String::new();
    trim_newline(&mut s);
    assert_eq!(s, "");
}
