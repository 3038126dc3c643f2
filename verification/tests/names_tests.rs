use mediafetch::digits::decimal_bytes;
use mediafetch::names::{base_name_from_url, last_segment, output_name, strip_query};

#[test]
fn decimal_zero() {
    assert_eq!(decimal_bytes(0), b"0".to_vec());
}

#[test]
fn decimal_multi_digit() {
    assert_eq!(decimal_bytes(907), b"907".to_vec());
}

#[test]
fn decimal_largest() {
    assert_eq!(decimal_bytes(u64::MAX), b"18446744073709551615".to_vec());
}

#[test]
fn strip_query_drops_suffix() {
    assert_eq!(strip_query(&b"img1.png?ex=66&hm=aa".to_vec()), b"img1.png".to_vec());
}

#[test]
fn strip_query_without_query_keeps_all() {
    assert_eq!(strip_query(&b"img1.png".to_vec()), b"img1.png".to_vec());
}

#[test]
fn strip_query_empty() {
    assert_eq!(strip_query(&Vec::new()), Vec::<u8>::new());
}

#[test]
fn strip_query_leading_marker_gives_empty() {
    assert_eq!(strip_query(&b"?only=query".to_vec()), Vec::<u8>::new());
}

#[test]
fn last_segment_of_url() {
    assert_eq!(
        last_segment(&b"https://cdn.example.net/attachments/5/907/img1.png".to_vec()),
        b"img1.png".to_vec()
    );
}

#[test]
fn last_segment_without_slash_keeps_all() {
    assert_eq!(last_segment(&b"plain".to_vec()), b"plain".to_vec());
}

#[test]
fn last_segment_trailing_slash_gives_empty() {
    assert_eq!(last_segment(&b"a/b/".to_vec()), Vec::<u8>::new());
}

#[test]
fn base_name_from_raw_url() {
    assert_eq!(
        base_name_from_url(&b"https://cdn.example.net/attachments/5/907/img1.png?ex=66".to_vec()),
        b"img1.png".to_vec()
    );
}

#[test]
fn output_name_joins_id_and_name() {
    assert_eq!(output_name(907, &b"img1.png".to_vec()), b"907_img1.png".to_vec());
}
