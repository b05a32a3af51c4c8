use replitdb::codec::DecodeError;
use replitdb::protocol::{
    build_delete, build_get, build_list, build_set, form_body, interpret_delete, interpret_get,
    interpret_list, interpret_set, url_of, DbError, Request, Response,
};

fn resp(status: u16, body: &str) -> Response {
    Response {
        status,
        body: body.to_string(),
    }
}

#[test]
fn get_request_url_encodes_the_key() {
    let req = build_get("a/b c");
    let url = url_of("http://db", &req);
    assert_eq!(url, "http://db/a%2Fb%20c");
}

#[test]
fn delete_request_url_encodes_the_key() {
    let req = build_delete("x=y");
    assert_eq!(url_of("http://db", &req), "http://db/x%3Dy");
}

#[test]
fn set_request_posts_to_the_base_url() {
    let req = build_set("k", "v");
    assert_eq!(url_of("http://db", &req), "http://db");
    match req {
        Request::Put { key_enc, val_enc } => {
            assert_eq!(form_body(&key_enc, &val_enc), "k=v");
        }
        _ => panic!("set must build a put request"),
    }
}

#[test]
fn set_body_escapes_separators() {
    let req = build_set("a=b", "c&d=e");
    match req {
        Request::Put { key_enc, val_enc } => {
            assert_eq!(form_body(&key_enc, &val_enc), "a%3Db=c%26d%3De");
        }
        _ => panic!("set must build a put request"),
    }
}

#[test]
fn list_request_carries_the_raw_prefix() {
    let req = build_list("a/");
    assert_eq!(url_of("http://db", &req), "http://db");
    match req {
        Request::List { prefix } => assert_eq!(prefix, "a/"),
        _ => panic!("list must build a list request"),
    }
}

#[test]
fn get_returns_body_on_success() {
    assert_eq!(interpret_get(resp(200, "value")).unwrap(), Some("value".to_string()));
    assert_eq!(interpret_get(resp(204, "")).unwrap(), Some(String::new()));
}

#[test]
fn get_returns_absent_on_404() {
    assert_eq!(interpret_get(resp(404, "")).unwrap(), None);
}

#[test]
fn remote_error_surfaces_body_verbatim() {
    assert_eq!(
        interpret_get(resp(500, "boom")).unwrap_err(),
        DbError::Remote("boom".to_string())
    );
    assert_eq!(
        interpret_set(resp(500, "boom")).unwrap_err(),
        DbError::Remote("boom".to_string())
    );
    assert_eq!(
        interpret_delete(resp(500, "boom")).unwrap_err(),
        DbError::Remote("boom".to_string())
    );
    assert_eq!(
        interpret_list(resp(500, "boom")).unwrap_err(),
        DbError::Remote("boom".to_string())
    );
}

#[test]
fn delete_accepts_404() {
    assert!(interpret_delete(resp(404, "")).is_ok());
    assert!(interpret_delete(resp(200, "")).is_ok());
}

#[test]
fn listing_splits_and_decodes_lines() {
    let keys = interpret_list(resp(200, "a%2F1\na%2F2\nb%201")).unwrap();
    assert_eq!(keys, vec!["a/1", "a/2", "b 1"]);
}

#[test]
fn empty_listing_body_means_no_keys() {
    let keys = interpret_list(resp(200, "")).unwrap();
    assert!(keys.is_empty());
}

#[test]
fn listing_with_bad_escape_is_a_decode_error() {
    assert_eq!(
        interpret_list(resp(200, "good\nb%GGd")).unwrap_err(),
        DbError::Decode(DecodeError::InvalidEscape)
    );
}
