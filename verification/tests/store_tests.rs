use replitdb::protocol::{build_delete, build_get, build_list, build_set, Request};
use replitdb::store::Store;

#[test]
fn wire_get_on_an_empty_store_is_404() {
    let mut store = Store::new();
    let resp = store.handle(&build_get("k"));
    assert_eq!(resp.status, 404);
}

#[test]
fn wire_set_then_get_carries_the_value() {
    let mut store = Store::new();
    let put = store.handle(&build_set("k", "v"));
    assert_eq!(put.status, 200);
    let got = store.handle(&build_get("k"));
    assert_eq!(got.status, 200);
    assert_eq!(got.body, "v");
}

#[test]
fn wire_delete_reports_presence() {
    let mut store = Store::new();
    store.handle(&build_set("k", "v"));
    assert_eq!(store.handle(&build_delete("k")).status, 200);
    assert_eq!(store.handle(&build_delete("k")).status, 404);
}

#[test]
fn wire_listing_is_newline_separated_and_encoded() {
    let mut store = Store::new();
    store.handle(&build_set("a/1", "x"));
    store.handle(&build_set("a 2", "y"));
    store.handle(&build_set("b", "z"));
    let resp = store.handle(&build_list(""));
    assert_eq!(resp.status, 200);
    assert_eq!(resp.body, "a%2F1\na%202\nb");
    let only_a = store.handle(&build_list("a"));
    assert_eq!(only_a.body, "a%2F1\na%202");
}

#[test]
fn wire_listing_of_nothing_has_an_empty_body() {
    let mut store = Store::new();
    let resp = store.handle(&build_list(""));
    assert_eq!(resp.status, 200);
    assert_eq!(resp.body, "");
}

#[test]
fn wire_refuses_a_malformed_key_encoding() {
    let mut store = Store::new();
    let resp = store.handle(&Request::Get {
        key_enc: "%zz".to_string(),
    });
    assert_eq!(resp.status, 400);
}
