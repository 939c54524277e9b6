use naming_listener::message::{build_envelope, gz_encode, render_instance_list};
use naming_listener::naming::{Instance, ServiceKey};

#[test]
fn envelope_wraps_and_escapes() {
    let e = build_envelope("plain");
    assert_eq!(e.as_str(), "{\"type\":\"dom\",\"data\":\"plain\"}");
    let e = build_envelope("a\"b\\c\nd");
    assert_eq!(e.as_str(), "{\"type\":\"dom\",\"data\":\"a\\\"b\\\\c\\nd\"}");
    let e = build_envelope("\u{1}");
    assert_eq!(e.as_str(), "{\"type\":\"dom\",\"data\":\"\\u0001\"}");
}

#[test]
fn render_produces_exact_json() {
    let key = ServiceKey::new("ns1".to_string(), "g1".to_string(), "s1".to_string());
    let list = vec![Instance::new("i1".to_string(), "1.2.3.4".to_string(), 8848, true)];
    let r = render_instance_list("c1,c2", &key, &list);
    assert_eq!(
        r.as_str(),
        "{\"namespaceId\":\"ns1\",\"name\":\"g1@@s1\",\"clusters\":\"c1,c2\",\"hosts\":[\
         {\"instanceId\":\"i1\",\"ip\":\"1.2.3.4\",\"port\":8848,\"healthy\":true}]}"
    );
}

#[test]
fn render_joins_hosts_with_commas() {
    let key = ServiceKey::new("n".to_string(), "g".to_string(), "s".to_string());
    let list = vec![
        Instance::new("a".to_string(), "1.1.1.1".to_string(), 1, true),
        Instance::new("b".to_string(), "2.2.2.2".to_string(), 2, false),
    ];
    let r = render_instance_list("", &key, &list);
    assert!(r
        .as_str()
        .contains("\"healthy\":true},{\"instanceId\":\"b\""));
    assert!(r.as_str().contains("\"healthy\":false}]}"));
}

#[test]
fn small_bodies_pass_through_uncompressed() {
    let data: Vec<u8> = b"hello".to_vec();
    let out = gz_encode(&data, 1024);
    assert_eq!(out, data);
}

#[test]
fn large_bodies_are_gzip_compressed() {
    let data: Vec<u8> = vec![b'x'; 4096];
    let out = gz_encode(&data, 1024);
    // a gzip stream starts with the two magic bytes and is much shorter
    // than 4096 repeated bytes
    assert_eq!(&out[0..2], &[0x1f, 0x8b]);
    assert!(out.len() < data.len());
    // determinism: the same input compresses to the same bytes
    let again = gz_encode(&data, 1024);
    assert_eq!(out, again);
}
