use extutils::hmacop::hmac_value_sha;
use extutils::netop::{request_client_options, ClientOptions};
use extutils::panicop::{
    panic_log_path, panic_logs_to_remove, panic_options_json, PanicOpError, PANIC_OPTIONS_HEAD,
    PANIC_OPTIONS_TAIL,
};
use extutils::numparse::IntErrorKind;
use extutils::randop::{get_rand_value, rand_value_from};

fn names(v: &[&str]) -> Vec<String> {
    v.iter().map(|s| s.to_string()).collect()
}

#[test]
fn oldest_panic_logs_go_first() {
    let n = names(&["panic_3.log", "panic_1.log", "other.txt", "panic_2.log"]);
    assert_eq!(panic_logs_to_remove(&n, 1), Ok(names(&["panic_1.log", "panic_2.log"])));
    assert_eq!(panic_logs_to_remove(&n, 3), Ok(vec![]));
    assert_eq!(panic_logs_to_remove(&n, 0), Ok(vec![]));
    assert_eq!(panic_logs_to_remove(&n, -1), Ok(vec![]));
}

#[test]
fn panic_log_names() {
    let n = names(&["panic_1xlog", "panic_12log", "panic_.log", "panic_1.log\n", "panic_5.log"]);
    assert_eq!(panic_logs_to_remove(&n, 1), Ok(names(&["panic_12log", "panic_1xlog"])));
    let n = names(&["panic_2.log", "panic_02.log", "panic_1.log"]);
    assert_eq!(panic_logs_to_remove(&n, 1), Ok(names(&["panic_1.log", "panic_02.log"])));
}

#[test]
fn panic_log_number_overflow() {
    let n = names(&["panic_1.log", "panic_99999999999999999999.log"]);
    assert_eq!(
        panic_logs_to_remove(&n, 1),
        Err(PanicOpError::BadLogNumber { kind: IntErrorKind::PosOverflow })
    );
}

#[test]
fn panic_log_file_path() {
    assert_eq!(panic_log_path("/tmp", "20240101000000"), "/tmp/panic_20240101000000.log");
}

#[test]
fn random_values_in_range() {
    assert_eq!(rand_value_from(5, 10, 12), 7);
    assert_eq!(rand_value_from(0, 1, u64::MAX), 0);
    for _ in 0..100 {
        let v = get_rand_value(5, 10);
        assert!((5..10).contains(&v));
    }
}

#[test]
fn hmac_sha1_known_answer() {
    let tag = hmac_value_sha(b"key", b"The quick brown fox jumps over the lazy dog").unwrap();
    let hex: String = tag.iter().map(|b| format!("{:02x}", b)).collect();
    assert_eq!(hex, "de7c9b85b8b78aa6bc8a7a36f70a90701c9db4d9");
    assert_eq!(hmac_value_sha(b"", b"").unwrap().len(), 20);
}

#[test]
fn client_options() {
    assert_eq!(
        request_client_options("https://x", false, 0),
        ClientOptions { timeout_ms: None, accept_invalid_certs: true, use_rustls: true }
    );
    assert_eq!(
        request_client_options("https://x", true, 5),
        ClientOptions { timeout_ms: Some(5), accept_invalid_certs: false, use_rustls: true }
    );
    assert_eq!(
        request_client_options("http://x", false, 100),
        ClientOptions { timeout_ms: Some(100), accept_invalid_certs: false, use_rustls: false }
    );
}

#[test]
fn panic_options_text() {
    let j = panic_options_json("C:\\bin");
    assert!(j.starts_with("\n\t{\n\t\t\"panicdir\" : \"C:\\\\bin\",\n"));
    assert!(j.contains("\"panicverbose##3 for dump stack##\" : 3,"));
    assert!(j.ends_with("\"panicmaxcnt##to specified whether count file to clean##\" : 0\n\t}\n\t"));
    assert_eq!(j, format!("{}{}{}", PANIC_OPTIONS_HEAD, "\"C:\\\\bin\"", PANIC_OPTIONS_TAIL));
}

#[test]
fn written_logs_are_recognized() {
    let p1 = panic_log_path("/var/log", "20240101000000");
    let p2 = panic_log_path("/var/log", "20230101000000");
    let n = vec![
        extutils::fileop::base_name(&p1),
        extutils::fileop::base_name(&p2),
        "notes.txt".to_string(),
    ];
    assert_eq!(panic_logs_to_remove(&n, 1), Ok(vec!["panic_20230101000000.log".to_string()]));
}

#[test]
fn second_cleanup_removes_nothing() {
    let n = names(&["panic_5.log", "panic_1.log", "x", "panic_3.log", "panic_4.log", "panic_2.log"]);
    for maxcnt in [1, 2, 4, 9] {
        let rm = panic_logs_to_remove(&n, maxcnt).unwrap();
        let left: Vec<String> = n.iter().filter(|s| !rm.contains(s)).cloned().collect();
        assert_eq!(panic_logs_to_remove(&left, maxcnt), Ok(vec![]));
    }
}
