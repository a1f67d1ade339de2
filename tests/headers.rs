use std::collections::HashMap;

use sxg_rs::canonical::{key_less, sort_entries};
use sxg_rs::cbor::encode_byte_string_map;
use sxg_rs::headers::USER_AGENT;
use sxg_rs::{HeaderError, Headers};

fn pairs(list: &[(&str, &str)]) -> Vec<(String, String)> {
    list.iter().map(|(k, v)| (k.to_string(), v.to_string())).collect()
}

fn names(list: &[&str]) -> Vec<String> {
    list.iter().map(|s| s.to_string()).collect()
}

fn sxg_only(accept: &str) -> Result<(), String> {
    if accept.contains("application/signed-exchange") {
        Ok(())
    } else {
        Err(format!("accept header {} does not ask for SXG", accept))
    }
}

fn forward(list: &[(&str, &str)], forwarded: &[&str]) -> Result<HashMap<String, String>, HeaderError> {
    let out = Headers::new(pairs(list)).forward_to_origin_server(&names(forwarded), sxg_only)?;
    let n = out.len();
    let map: HashMap<String, String> = out.into_iter().collect();
    assert_eq!(map.len(), n, "a name occurs twice in the forwarded headers");
    Ok(map)
}

fn byte_string(b: &[u8]) -> Vec<u8> {
    assert!(b.len() <= 23);
    let mut out = vec![0x40 | b.len() as u8];
    out.extend_from_slice(b);
    out
}

#[test]
fn lookup_ignores_case() {
    let h = Headers::new(pairs(&[("Content-Type", "text/html"), ("X-Custom", "1")]));
    assert_eq!(h.get("content-type"), Some("text/html".to_string()));
    assert_eq!(h.get("CONTENT-TYPE"), Some("text/html".to_string()));
    assert_eq!(h.get("x-CUSTOM"), Some("1".to_string()));
    assert_eq!(h.get("accept"), None);
}

#[test]
fn duplicate_names_keep_last_value() {
    let h = Headers::new(pairs(&[("Accept", "a"), ("via", "v"), ("ACCEPT", "b"), ("accept", "c")]));
    assert_eq!(h.get("accept"), Some("c".to_string()));
    assert_eq!(h.get("via"), Some("v".to_string()));
}

#[test]
fn empty_table_has_nothing() {
    let h = Headers::new(vec![]);
    assert_eq!(h.get(""), None);
    assert_eq!(h.validate_as_sxg_payload(true), Err(HeaderError::MissingContentType));
}

#[test]
fn forward_without_accept_is_missing_header() {
    assert_eq!(forward(&[("via", "1.1 foo")], &[]), Err(HeaderError::MissingHeader("accept".to_string())));
}

#[test]
fn forward_passes_on_media_type_error() {
    assert_eq!(
        forward(&[("accept", "text/html")], &[]),
        Err(HeaderError::InvalidMediaType("accept header text/html does not ask for SXG".to_string()))
    );
}

#[test]
fn forward_appends_to_upstream_via() {
    let out = forward(&[("accept", "application/signed-exchange;v=b3"), ("Via", "1.1 foo")], &[]).unwrap();
    assert_eq!(out.get("via").map(String::as_str), Some("1.1 foo, sxgrs"));
}

#[test]
fn forward_keeps_listed_via_as_is() {
    let out = forward(&[("accept", "application/signed-exchange;v=b3"), ("via", "1.1 foo")], &["via"]).unwrap();
    assert_eq!(out.get("via").map(String::as_str), Some("1.1 foo"));
}

#[test]
fn forward_with_empty_list_adds_defaults_only() {
    let out = forward(&[("accept", "application/signed-exchange;v=b3"), ("cookie", "a=b")], &[]).unwrap();
    let mut expected = HashMap::new();
    expected.insert("user-agent".to_string(), USER_AGENT.to_string());
    expected.insert("via".to_string(), "sxgrs".to_string());
    assert_eq!(out, expected);
}

#[test]
fn forward_keeps_listed_headers() {
    let out = forward(
        &[
            ("Accept", "application/signed-exchange;v=b3"),
            ("User-Agent", "probe"),
            ("accept-language", "en"),
            ("cookie", "a=b"),
        ],
        &["accept", "user-agent", "accept-language"],
    )
    .unwrap();
    let mut expected = HashMap::new();
    expected.insert("accept".to_string(), "application/signed-exchange;v=b3".to_string());
    expected.insert("user-agent".to_string(), "probe".to_string());
    expected.insert("accept-language".to_string(), "en".to_string());
    expected.insert("via".to_string(), "sxgrs".to_string());
    assert_eq!(out, expected);
}

#[test]
fn forward_replaces_unlisted_user_agent() {
    let out = forward(&[("accept", "application/signed-exchange;v=b3"), ("user-agent", "probe")], &[]).unwrap();
    assert_eq!(out.get("user-agent").map(String::as_str), Some(USER_AGENT));
}

#[test]
fn stateful_header_rejected_only_when_asked() {
    let h = Headers::new(pairs(&[("content-type", "text/html"), ("Set-Cookie", "a=b")]));
    assert_eq!(
        h.validate_as_sxg_payload(true),
        Err(HeaderError::StatefulHeaderRejected("set-cookie".to_string()))
    );
    assert_eq!(h.validate_as_sxg_payload(false), Ok(()));
}

#[test]
fn cache_control_no_cache_or_private_rejected() {
    let h = Headers::new(pairs(&[("content-type", "text/html"), ("cache-control", "max-age=0, no-cache")]));
    assert_eq!(
        h.validate_as_sxg_payload(false),
        Err(HeaderError::InvalidCacheControl("max-age=0, no-cache".to_string()))
    );
    let h = Headers::new(pairs(&[("content-type", "text/html"), ("Cache-Control", "private")]));
    assert_eq!(h.validate_as_sxg_payload(false), Err(HeaderError::InvalidCacheControl("private".to_string())));
    let h = Headers::new(pairs(&[("content-type", "text/html"), ("cache-control", "public, max-age=60")]));
    assert_eq!(h.validate_as_sxg_payload(false), Ok(()));
}

#[test]
fn content_length_limits() {
    let check = |len: &str| {
        Headers::new(pairs(&[("content-type", "text/html"), ("content-length", len)])).validate_as_sxg_payload(true)
    };
    assert_eq!(check("8000001"), Err(HeaderError::ContentTooLarge(8000001)));
    assert_eq!(check("8000000"), Ok(()));
    assert_eq!(check("0"), Ok(()));
    assert_eq!(check("abc"), Err(HeaderError::InvalidContentLength("abc".to_string())));
    assert_eq!(check("-1"), Err(HeaderError::InvalidContentLength("-1".to_string())));
    assert_eq!(check(""), Err(HeaderError::InvalidContentLength("".to_string())));
    assert_eq!(
        check("18446744073709551616"),
        Err(HeaderError::InvalidContentLength("18446744073709551616".to_string()))
    );
}

#[test]
fn missing_content_type() {
    let h = Headers::new(pairs(&[("content-length", "10"), ("cache-control", "public")]));
    assert_eq!(h.validate_as_sxg_payload(true), Err(HeaderError::MissingContentType));
    let h = Headers::new(pairs(&[("Content-Type", "text/html")]));
    assert_eq!(h.validate_as_sxg_payload(true), Ok(()));
}

#[test]
fn signed_headers_bytes_exact() {
    let h = Headers::new(pairs(&[("Content-Type", "text/html"), ("connection", "close"), ("set-cookie", "a=b")]));
    let bytes = h.get_signed_headers_bytes(200, &[1, 2, 3]);
    let mut expected = vec![0xa4];
    for (k, v) in [
        ("digest", "mi-sha256-03=AQID"),
        (":status", "200"),
        ("content-type", "text/html"),
        ("content-encoding", "mi-sha256-03"),
    ] {
        expected.extend(byte_string(k.as_bytes()));
        expected.extend(byte_string(v.as_bytes()));
    }
    assert_eq!(bytes, expected);
    let close = b"close";
    assert!(!bytes.windows(close.len()).any(|w| w == close));
}

#[test]
fn signed_headers_bytes_replace_reserved_names() {
    let h = Headers::new(pairs(&[("content-type", "a"), ("digest", "x"), (":status", "404"), ("Content-Encoding", "gzip")]));
    let other = Headers::new(pairs(&[("content-type", "a")]));
    assert_eq!(h.get_signed_headers_bytes(404, b"d"), other.get_signed_headers_bytes(404, b"d"));
}

#[test]
fn signed_headers_bytes_do_not_depend_on_order() {
    let a = Headers::new(pairs(&[("content-type", "text/html"), ("x-b", "2"), ("x-a", "1"), ("link", "<a>")]));
    let b = Headers::new(pairs(&[("link", "<a>"), ("X-A", "1"), ("content-type", "text/html"), ("x-b", "2")]));
    let first = a.get_signed_headers_bytes(200, b"digest");
    assert_eq!(first, a.get_signed_headers_bytes(200, b"digest"));
    assert_eq!(first, b.get_signed_headers_bytes(200, b"digest"));
}

#[test]
fn status_and_digest_change_the_bytes() {
    let h = Headers::new(pairs(&[("content-type", "text/html")]));
    assert_ne!(h.get_signed_headers_bytes(200, b"a"), h.get_signed_headers_bytes(404, b"a"));
    assert_ne!(h.get_signed_headers_bytes(200, b"a"), h.get_signed_headers_bytes(200, b"b"));
}

#[test]
fn map_encoding_uses_shortest_lengths() {
    let es = vec![(vec![7u8; 24], vec![9u8; 256]), (vec![], vec![1u8; 23])];
    let bytes = encode_byte_string_map(&es);
    let mut expected = vec![0xa2, 0x58, 24];
    expected.extend(vec![7u8; 24]);
    expected.extend([0x59, 0x01, 0x00]);
    expected.extend(vec![9u8; 256]);
    expected.push(0x40);
    expected.push(0x57);
    expected.extend(vec![1u8; 23]);
    assert_eq!(bytes, expected);
    let long = vec![(vec![0u8; 70000], vec![])];
    assert_eq!(&encode_byte_string_map(&long)[..6], &[0xa1, 0x5a, 0x00, 0x01, 0x11, 0x70]);
}

#[test]
fn sort_puts_shorter_keys_first() {
    let es = vec![
        (b"bb".to_vec(), b"1".to_vec()),
        (b"c".to_vec(), b"2".to_vec()),
        (b"ab".to_vec(), b"3".to_vec()),
        (b"".to_vec(), b"4".to_vec()),
    ];
    let sorted = sort_entries(es);
    let keys: Vec<&[u8]> = sorted.iter().map(|e| e.0.as_slice()).collect();
    assert_eq!(keys, vec![&b""[..], &b"c"[..], &b"ab"[..], &b"bb"[..]]);
    assert!(key_less(&b"z".to_vec(), &b"aa".to_vec()));
    assert!(!key_less(&b"ab".to_vec(), &b"ab".to_vec()));
}

#[test]
fn verdict_error_is_handed_back() {
    let h = Headers::new(pairs(&[("accept", "text/html"), ("via", "1.1 foo")]));
    assert_eq!(
        h.forward_with_verdict(&names(&["via"]), Err("no sxg".to_string())),
        Err(HeaderError::InvalidMediaType("no sxg".to_string()))
    );
}

#[test]
fn missing_accept_wins_over_verdict() {
    let h = Headers::new(pairs(&[("via", "1.1 foo")]));
    assert_eq!(
        h.forward_with_verdict(&[], Err("no sxg".to_string())),
        Err(HeaderError::MissingHeader("accept".to_string()))
    );
}

#[test]
fn verdict_ok_forwards() {
    let h = Headers::new(pairs(&[("accept", "*/*"), ("Via", "1.0 a, 1.1 b")]));
    let out: HashMap<String, String> = h.forward_with_verdict(&names(&["accept"]), Ok(())).unwrap().into_iter().collect();
    let mut expected = HashMap::new();
    expected.insert("accept".to_string(), "*/*".to_string());
    expected.insert("via".to_string(), "1.0 a, 1.1 b, sxgrs".to_string());
    expected.insert("user-agent".to_string(), USER_AGENT.to_string());
    assert_eq!(out, expected);
}
