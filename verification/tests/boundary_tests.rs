use ttl_convert::boundary::{decode_input, finish_conversion, ConvertError};

#[test]
fn bytes_that_are_no_text_are_rejected() {
    assert_eq!(decode_input(&[0xff, 0xfe, 0x00]), Err(ConvertError::InvalidEncoding));
    assert_eq!(decode_input(&[b'a', 0xc3]), Err(ConvertError::InvalidEncoding));
    assert_eq!(decode_input(&[0xed, 0xa0, 0x80]), Err(ConvertError::InvalidEncoding));
}

#[test]
fn text_is_decoded() {
    assert_eq!(decode_input("<r>héllo ∂</r>".as_bytes()), Ok("<r>héllo ∂</r>".to_string()));
    assert_eq!(decode_input(&[]), Ok(String::new()));
}

#[test]
fn converted_text_is_rewritten() {
    let ttl = "<https://decisym.ai#/item1> <https://decisym.ai/xml2rdf/model#hasValue> \"test\" .\n";
    let labelled = finish_conversion(Ok(ttl.to_string()), "https://example.org#", Some("ecospold02"));
    assert_eq!(
        labelled,
        Ok("<https://example.org#ecospold02.item1> <https://example.org/xml2rdf/model#ecospold02.hasValue> \"test\" .\n".to_string())
    );
    let plain = finish_conversion(Ok(ttl.to_string()), "https://example.org#", None);
    assert_eq!(
        plain,
        Ok("<https://example.org#/item1> <https://example.org/xml2rdf/model#hasValue> \"test\" .\n".to_string())
    );
}

#[test]
fn converter_failure_keeps_its_description() {
    let r = finish_conversion(Err("unexpected end of stream".to_string()), "https://example.org", None);
    assert_eq!(r, Err(ConvertError::ConversionFailed("unexpected end of stream".to_string())));
    assert_eq!(r.unwrap_err().message(), "Conversion failed: unexpected end of stream");
}

#[test]
fn encoding_error_has_its_message() {
    assert_eq!(ConvertError::InvalidEncoding.message(), "Invalid UTF-8");
}
