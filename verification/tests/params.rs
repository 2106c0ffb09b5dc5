use questdb_confstr::{ConfStr, Params};

fn text(s: &str) -> String {
    s.to_string()
}

#[test]
fn new_params_are_empty() {
    let params = Params::new();
    assert!(params.is_empty());
    assert_eq!(params.len(), 0);
    assert_eq!(params.get("host"), None);
    assert!(!params.contains_key("host"));
}

#[test]
fn insert_adds_a_key() {
    let mut params = Params::new();
    params.insert(text("host"), text("localhost"));
    assert!(!params.is_empty());
    assert_eq!(params.len(), 1);
    assert!(params.contains_key("host"));
    assert_eq!(params.get("host"), Some("localhost"));
    assert_eq!(params.entry(0), ("host", "localhost"));
}

#[test]
fn insert_replaces_the_value_of_a_key() {
    let mut params = Params::new();
    params.insert(text("host"), text("a"));
    params.insert(text("port"), text("9000"));
    params.insert(text("host"), text("b"));
    assert_eq!(params.len(), 2);
    assert_eq!(params.get("host"), Some("b"));
    assert_eq!(params.get("port"), Some("9000"));
    assert_eq!(params.entry(0), ("host", "b"));
    assert_eq!(params.entry(1), ("port", "9000"));
}

#[test]
fn entries_keep_the_order_of_arrival() {
    let mut params = Params::new();
    params.insert(text("z"), text("1"));
    params.insert(text("a"), text("2"));
    params.insert(text("m"), text("3"));
    assert_eq!(params.entry(0), ("z", "1"));
    assert_eq!(params.entry(1), ("a", "2"));
    assert_eq!(params.entry(2), ("m", "3"));
}

#[test]
fn keys_are_told_apart_exactly() {
    let mut params = Params::new();
    params.insert(text("Host"), text("x"));
    assert_eq!(params.get("Host"), Some("x"));
    assert_eq!(params.get("host"), None);
    assert_eq!(params.get("HOST"), None);
    assert_eq!(params.get("Host "), None);
    assert_eq!(params.get("Hos"), None);
    assert_eq!(params.get(""), None);
}

#[test]
fn conf_str_hands_out_what_it_was_given() {
    let mut params = Params::new();
    params.insert(text("user"), text("joe"));
    let conf = ConfStr::new(text("pg"), params);
    assert_eq!(conf.service(), "pg");
    assert_eq!(conf.get("user"), Some("joe"));
    assert_eq!(conf.get("pass"), None);
    assert_eq!(conf.params().len(), 1);
    assert_eq!(conf.params().entry(0), ("user", "joe"));
}

#[test]
fn conf_str_debug_text_leaves_the_parameters_out() {
    let mut params = Params::new();
    params.insert(text("password"), text("hunter2"));
    let conf = ConfStr::new(text("pg"), params);
    let shown = format!("{:?}", conf);
    assert_eq!(shown, "ConfStr { service: \"pg\", .. }");
    assert!(!shown.contains("hunter2"));
}

#[test]
fn debug_text_depends_on_the_service_alone() {
    let mut first = Params::new();
    first.insert(text("password"), text("hunter2"));
    let mut second = Params::new();
    second.insert(text("user"), text("joe"));
    second.insert(text("token"), text("abc"));
    let a = ConfStr::new(text("pg"), first);
    let b = ConfStr::new(text("pg"), second);
    assert_eq!(a.to_debug_string(), "ConfStr { service: \"pg\", .. }");
    assert_eq!(a.to_debug_string(), b.to_debug_string());
    assert_eq!(format!("{:?}", a), a.to_debug_string());
    assert_eq!(format!("{:?}", b), format!("{:?}", a));
}

#[test]
fn debug_text_quotes_the_service_name() {
    let conf = ConfStr::new(text("a\"b"), Params::new());
    assert_eq!(conf.to_debug_string(), "ConfStr { service: \"a\\\"b\", .. }");
    assert_eq!(ConfStr::debug_with("<q>"), "ConfStr { service: <q>, .. }");
}
