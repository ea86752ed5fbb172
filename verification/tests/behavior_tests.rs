use leef2hashmap::{leef_to_map, is_datetime_str, split_with_escaped, Error, LeefToHashMap};

#[test]
fn test_error_kinds() {
    let not_leef = "just some text with | pipes | but = no marker";
    assert_eq!(not_leef.to_hashmap(false).unwrap_err(), Error::NotLeef);
    let malformed = "LEEF:1.0|Microsoft|MSExchange|Logon Failure|";
    assert_eq!(malformed.to_hashmap(false).unwrap_err(), Error::MalformedLeef);
}

#[test]
fn test_header_values() {
    let s = "LEEF:1.0|Microsoft|MSExchange|2013|Logon Failure|";
    let x = s.to_hashmap(false).unwrap();
    assert_eq!(x.get("deviceVendor").unwrap(), "Microsoft");
    assert_eq!(x.get("deviceProduct").unwrap(), "MSExchange");
    assert_eq!(x.get("deviceVersion").unwrap(), "2013");
    assert_eq!(x.get("eventId").unwrap(), "Logon Failure");
    assert!(x.get("delimiter").is_none());
}

#[test]
fn test_delimiter_header_value() {
    let s = "LEEF:2.0|Microsoft|MSExchange|2013|Logon Failure|x5e|";
    let x = s.to_hashmap(false).unwrap();
    assert_eq!(x.get("delimiter").unwrap(), "x5e");
}

#[test]
fn test_pri_facility_values() {
    let s = "<134>LEEF:2.0|Microsoft|MSExchange|2013|Logon Failure|";
    let x = s.to_hashmap(false).unwrap();
    assert_eq!(x.get("syslog_facility").unwrap(), "16");
    assert_eq!(x.get("syslog_priority").unwrap(), "6");
}

#[test]
fn test_host_and_datetime_values() {
    let s = "<134>2022-02-14T03:17:30-08:00 TEST LEEF:2.0|Microsoft|MSExchange|2013|Logon Failure|src=127.0.0.1 ";
    let x = s.to_hashmap(false).unwrap();
    assert_eq!(x.get("ahost").unwrap(), "TEST");
    assert_eq!(x.get("at").unwrap(), "2022-02-14T03:17:30-08:00");
    assert_eq!(x.get("src").unwrap(), "127.0.0.1");
}

#[test]
fn test_parse_twice_identical() {
    let s = "<134>Feb 14 19:04:54 TEST LEEF:2.0|Microsoft|MSExchange|2013|Logon Failure|src=127.0.0.1 suser=Admin";
    let first = s.to_hashmap(true).unwrap();
    let second = s.to_hashmap(true).unwrap();
    assert_eq!(first, second);
}

#[test]
fn test_raw_event_is_trimmed_input() {
    let s = "  LEEF:1.0|Microsoft|Exchange|2013|Login Event|cat=Success  ";
    let with_raw = s.to_hashmap(true).unwrap();
    let without = s.to_hashmap(false).unwrap();
    assert_eq!(
        with_raw.get("rawEvent").unwrap(),
        "LEEF:1.0|Microsoft|Exchange|2013|Login Event|cat=Success"
    );
    assert_eq!(with_raw.len(), without.len() + 1);
    assert!(without.get("rawEvent").is_none());
}

#[test]
fn test_tab_separated_attributes() {
    let s = "LEEF:1.0|Vendor|Product|1.0|600|src=127.0.0.1\tdst=10.0.0.1\tsev=5";
    let x = s.to_hashmap(false).unwrap();
    assert_eq!(x.get("src").unwrap(), "127.0.0.1");
    assert_eq!(x.get("dst").unwrap(), "10.0.0.1");
    assert_eq!(x.get("sev").unwrap(), "5");
}

#[test]
fn test_spelled_out_tab_attributes() {
    let s = "LEEF:1.0|Vendor|Product|1.0|600|src=127.0.0.1\\tdst=10.0.0.1";
    let x = s.to_hashmap(false).unwrap();
    assert_eq!(x.get("src").unwrap(), "127.0.0.1");
    assert_eq!(x.get("dst").unwrap(), "10.0.0.1");
}

#[test]
fn test_custom_delimiter_attributes() {
    let s = "LEEF:2.0|Vendor|Product|1.0|600|#|src=127.0.0.1#dst=10.0.0.1";
    let x = s.to_hashmap(false).unwrap();
    assert_eq!(x.get("delimiter").unwrap(), "#");
    assert_eq!(x.get("src").unwrap(), "127.0.0.1");
    assert_eq!(x.get("dst").unwrap(), "10.0.0.1");
}

#[test]
fn test_space_separated_attributes() {
    let s = "LEEF:1.0|Vendor|Product|20.0.560|600|src=127.0.0.1 suser=Admin";
    let x = s.to_hashmap(false).unwrap();
    assert_eq!(x.get("src").unwrap(), "127.0.0.1");
    assert_eq!(x.get("suser").unwrap(), "Admin");
}

#[test]
fn test_label_folding() {
    let s = "LEEF:1.0|Vendor|Product|1.0|600|cs1Label=Reason Code cs1=404";
    let x = s.to_hashmap(false).unwrap();
    assert!(x.get("cs1Label").is_none());
    assert!(x.get("cs1").is_none());
    assert_eq!(x.get("ReasonCode").unwrap(), "404");
}

#[test]
fn test_is_datetime_str_heuristic() {
    assert!(is_datetime_str("2022-02-14T03:17:30-08:00"));
    assert!(is_datetime_str("Feb 14 19:04:54"));
    assert!(is_datetime_str("some-host-with-dashes"));
    assert!(!is_datetime_str("hostname"));
    assert!(!is_datetime_str("127.0.0.1"));
    assert!(!is_datetime_str("::1"));
}

#[test]
fn test_split_with_escaped_keeps_escaped() {
    let parts = split_with_escaped(r"request=https://google.com&search\=rust", &'=');
    assert_eq!(parts.len(), 2);
    assert_eq!(parts[0], "request");
    assert_eq!(parts[1], r"https://google.com&search\=rust");
}

#[test]
fn test_split_with_escaped_plain() {
    let parts = split_with_escaped("a=b=c", &'=');
    assert_eq!(parts.len(), 3);
    assert_eq!(parts[0], "a");
    assert_eq!(parts[1], "b");
    assert_eq!(parts[2], "c");
}

#[test]
fn test_leef_to_map_direct() {
    let x = leef_to_map("LEEF:1.0|Vendor|Product|20.0.560|600|User Signed In|3|src=127.0.0.1 suser=Admin", true);
    assert!(x.is_ok());
}

#[test]
fn test_lowercase_marker_accepted() {
    let s = "leef:1.0|Microsoft|MSExchange|2013|Logon Failure|";
    assert!(s.to_hashmap(false).is_ok());
}

#[test]
fn test_empty_attribute_text() {
    let s = "LEEF:2.0|Microsoft|MSExchange|2013|Logon Failure|";
    let x = s.to_hashmap(false).unwrap();
    assert_eq!(x.len(), 4);
}

#[test]
fn test_generic_error_from_str() {
    let e = Error::from("something odd");
    assert_eq!(e, Error::Generic("something odd".to_string()));
    assert_eq!(e.message(), "Generic Error: something odd");
}

#[test]
fn test_error_messages() {
    assert_eq!(Error::NotLeef.message(), "Not a LEEF String");
    assert_eq!(
        Error::MalformedLeef.message(),
        "Could be a malformed LEEF string"
    );
}
