use kvs::error::KvsError;
use kvs::names::{gen_log_name, log_ids, parse_log_name};
use kvs::protocol::{get_reply, parse_request, remove_miss_reply, split_request, Client, Request};

#[test]
fn log_names() {
    assert_eq!(gen_log_name(12), "12.log");
    assert_eq!(gen_log_name(0), "0.log");
    assert_eq!(gen_log_name(u64::MAX), format!("{}.log", u64::MAX));
    assert_eq!(parse_log_name("12.log"), Some(12));
    assert_eq!(parse_log_name("1.log"), Some(1));
    assert_eq!(parse_log_name(&format!("{}.log", u64::MAX)), Some(u64::MAX));
    assert_eq!(parse_log_name("18446744073709551616.log"), None);
    assert_eq!(parse_log_name("012.log"), None);
    assert_eq!(parse_log_name("0.log"), None);
    assert_eq!(parse_log_name("a.log"), None);
    assert_eq!(parse_log_name("12.txt"), None);
    assert_eq!(parse_log_name(".log"), None);
    assert_eq!(parse_log_name("pre_engine"), None);
}

#[test]
fn split_on_single_spaces() {
    assert_eq!(split_request("set foo bar"), vec!["set", "foo", "bar"]);
    assert_eq!(split_request("a  b"), vec!["a", "", "b"]);
    assert_eq!(split_request(""), vec![""]);
}

#[test]
fn wire_requests() {
    match parse_request("set foo bar").unwrap() {
        Request::Put { key, value } => assert_eq!((key.as_str(), value.as_str()), ("foo", "bar")),
        other => panic!("unexpected {:?}", other),
    }
    match parse_request("get foo").unwrap() {
        Request::Get { key } => assert_eq!(key, "foo"),
        other => panic!("unexpected {:?}", other),
    }
    match parse_request("rm foo").unwrap() {
        Request::Remove { key } => assert_eq!(key, "foo"),
        other => panic!("unexpected {:?}", other),
    }
    assert!(matches!(parse_request("del foo"), Err(KvsError::UnKnownOperation(v)) if v == "del"));
    assert!(matches!(parse_request("get"), Err(KvsError::BadRequest)));
    assert!(matches!(parse_request("set foo"), Err(KvsError::BadRequest)));
    assert!(matches!(parse_request("set foo bar baz"), Err(KvsError::BadRequest)));
    assert!(matches!(parse_request("get "), Err(KvsError::BadRequest)));
}

#[test]
fn wire_replies() {
    assert_eq!(get_reply(Some("bar".to_string())), "bar");
    assert_eq!(get_reply(None), "Key not found");
    assert_eq!(remove_miss_reply(&"k".to_string()), "Key not found: k");
}

#[test]
fn client_requests() {
    let c = Client::new("127.0.0.1:4000".to_string());
    assert_eq!(c.addr(), "127.0.0.1:4000");
    assert_eq!(c.get_request("foo"), "get foo");
    assert_eq!(c.set_request("foo", "bar"), "set foo bar");
    assert_eq!(c.remove_request("foo"), "rm foo");
    match parse_request(&c.set_request("foo", "bar")).unwrap() {
        Request::Put { key, value } => assert_eq!((key.as_str(), value.as_str()), ("foo", "bar")),
        other => panic!("unexpected {:?}", other),
    }
}

#[test]
fn segment_ids_sorted_and_filtered() {
    let names: Vec<String> = ["10.log", "2.log", "pre_engine", "02.log", "2.log", "x.log", "1.log"]
        .iter()
        .map(|s| s.to_string())
        .collect();
    assert_eq!(log_ids(&names), vec![1, 2, 10]);
    assert_eq!(log_ids(&Vec::new()), Vec::<u64>::new());
}
