use bary::responder::{content_type_for_extension, content_type_for_path};
use bary::{VFResponder, VecHandler};

#[test]
fn javascript_gets_its_content_type() {
    let ct = content_type_for_path("/app.js").unwrap();
    assert!(ct.starts_with("text/javascript"), "{}", ct);
}

#[test]
fn html_gets_its_content_type() {
    let ct = content_type_for_path("/index.html").unwrap();
    assert!(ct.starts_with("text/html"), "{}", ct);
}

#[test]
fn extension_lookup_ignores_case() {
    assert_eq!(content_type_for_path("/STYLE.CSS"), content_type_for_path("/style.css"));
    assert!(content_type_for_path("/style.css").unwrap().starts_with("text/css"));
}

#[test]
fn unknown_extension_has_no_content_type() {
    assert_eq!(content_type_for_path("/data.unknownext"), None);
}

#[test]
fn missing_extension_has_no_content_type() {
    assert_eq!(content_type_for_path("/LICENSE"), None);
    assert_eq!(content_type_for_path("/a/"), None);
    assert_eq!(content_type_for_path("/.hidden"), None);
    assert_eq!(content_type_for_extension(None), None);
}

#[test]
fn same_extension_same_content_type() {
    assert_eq!(content_type_for_path("/a/b/c.png"), content_type_for_path("/x.png"));
    assert_eq!(content_type_for_extension(Some("png".to_string())), content_type_for_path("/x.png"));
    assert!(content_type_for_path("/x.png").unwrap().starts_with("image/png"));
}

#[test]
fn response_carries_bytes_and_length() {
    let responder = VFResponder(b"hello world".to_vec(), "/index.html".to_string());
    let response = responder.respond_to();
    assert_eq!(response.body, b"hello world".to_vec());
    assert_eq!(response.length, 11);
    assert!(response.content_type.unwrap().starts_with("text/html"));
}

#[test]
fn response_without_known_type() {
    let responder = VFResponder(vec![], "/blob".to_string());
    let response = responder.respond_to();
    assert_eq!(response.body, Vec::<u8>::new());
    assert_eq!(response.length, 0);
    assert_eq!(response.content_type, None);
}

#[test]
fn handler_hands_out_a_copy() {
    let handler = VecHandler(VFResponder(vec![1, 2, 3], "/a.bin".to_string()));
    let copy = handler.handle();
    assert_eq!(copy.0, vec![1, 2, 3]);
    assert_eq!(copy.1, "/a.bin");
}
