use svg_converter::data_url::{
    base64_payload, data_url_of, encode_to_base64_data_url, extract_base64_data, Base64Error, DataUrlError,
};

#[test]
fn data_is_encoded_behind_the_mime_type() {
    assert_eq!(encode_to_base64_data_url(b"hello", "text/plain"), "data:text/plain;base64,aGVsbG8=");
    assert_eq!(encode_to_base64_data_url(b"", "image/png"), "data:image/png;base64,");
    assert_eq!(encode_to_base64_data_url(&[0xff, 0xee, 0xdd], ""), "data:;base64,/+7d");
    assert_eq!(encode_to_base64_data_url(b"ab", "a/b"), "data:a/b;base64,YWI=");
}

#[test]
fn data_url_is_put_together_from_its_parts() {
    assert_eq!(data_url_of("image/png", "QUJD"), "data:image/png;base64,QUJD");
    assert_eq!(data_url_of("", ""), "data:;base64,");
    assert_eq!(data_url_of("t\u{e9}xt", "\u{1f600}"), "data:t\u{e9}xt;base64,\u{1f600}");
}

#[test]
fn payload_follows_the_first_marker() {
    assert_eq!(base64_payload("data:image/png;base64,QUJD"), Some("QUJD".to_string()));
    assert_eq!(base64_payload(";base64,"), Some(String::new()));
    assert_eq!(base64_payload("x;base64,;base64,QQ=="), Some(";base64,QQ==".to_string()));
    assert_eq!(base64_payload("\u{e9};base64,\u{e9}"), Some("\u{e9}".to_string()));
    assert_eq!(base64_payload("data:image/png;base64"), None);
    assert_eq!(base64_payload("data:image/png;Base64,QUJD"), None);
    assert_eq!(base64_payload(""), None);
    assert_eq!(base64_payload("base64,"), None);
}

#[test]
fn data_is_taken_out_of_a_data_url() {
    assert_eq!(extract_base64_data("data:text/plain;base64,aGVsbG8="), Ok(b"hello".to_vec()));
    assert_eq!(extract_base64_data(";base64,"), Ok(Vec::new()));
    assert_eq!(extract_base64_data("anything;base64,/+7d"), Ok(vec![0xff, 0xee, 0xdd]));
}

#[test]
fn missing_marker_is_reported() {
    assert_eq!(extract_base64_data("aGVsbG8="), Err(DataUrlError::MissingMarker));
    assert_eq!(extract_base64_data(""), Err(DataUrlError::MissingMarker));
    assert_eq!(extract_base64_data("data:text/plain,hello"), Err(DataUrlError::MissingMarker));
}

#[test]
fn invalid_payload_is_reported() {
    assert_eq!(
        extract_base64_data("data:;base64,*GVs"),
        Err(DataUrlError::InvalidPayload(Base64Error::InvalidByte(0, b'*')))
    );
    assert_eq!(
        extract_base64_data("data:;base64,aGVsbG8"),
        Err(DataUrlError::InvalidPayload(Base64Error::InvalidPadding))
    );
    assert_eq!(
        extract_base64_data("data:;base64,aGVsb"),
        Err(DataUrlError::InvalidPayload(Base64Error::InvalidLength))
    );
    assert_eq!(
        extract_base64_data("data:;base64,aGVsbG9="),
        Err(DataUrlError::InvalidPayload(Base64Error::InvalidLastSymbol(6, b'9')))
    );
    assert_eq!(
        extract_base64_data("x;base64,;base64,QQ=="),
        Err(DataUrlError::InvalidPayload(Base64Error::InvalidByte(0, b';')))
    );
}

#[test]
fn encoded_data_comes_back() {
    let data: Vec<u8> = (0u16..600).map(|i| (i * 7 % 256) as u8).collect();
    let url = encode_to_base64_data_url(&data, "application/octet-stream");
    assert!(url.starts_with("data:application/octet-stream;base64,"));
    assert_eq!(url.len(), 37 + 800);
    assert_eq!(extract_base64_data(&url), Ok(data));
}

#[test]
fn mime_type_with_a_marker_hides_the_payload() {
    let url = encode_to_base64_data_url(b"hi", "x;base64,y");
    assert_eq!(url, "data:x;base64,y;base64,aGk=");
    assert_eq!(base64_payload(&url), Some("y;base64,aGk=".to_string()));
    assert_eq!(
        extract_base64_data(&url),
        Err(DataUrlError::InvalidPayload(Base64Error::InvalidLength))
    );
    let plain = encode_to_base64_data_url(b"hi", "text/plain");
    assert_eq!(base64_payload(&plain), Some("aGk=".to_string()));
    assert_eq!(extract_base64_data(&plain), Ok(b"hi".to_vec()));
}
