use asn1_rs::header::Header;
use asn1_rs::length::{decode_length, length_cut, Length};
use asn1_rs::tag::{decode_identifier, identifier_cut, identifier_len, write_identifier, Identifier};
use asn1_rs::{Class, Error, ErrorKind, Needed, ParseError, SerializeError};

#[test]
fn class_bits_and_back() {
    assert_eq!(Class::Universal.bits(), 0);
    assert_eq!(Class::Application.bits(), 1);
    assert_eq!(Class::ContextSpecific.bits(), 2);
    assert_eq!(Class::Private.bits(), 3);
    assert_eq!(Class::from_bits(0), Class::Universal);
    assert_eq!(Class::from_bits(1), Class::Application);
    assert_eq!(Class::from_bits(2), Class::ContextSpecific);
    assert_eq!(Class::from_bits(3), Class::Private);
    assert_eq!(Class::from_bits(7), Class::Private);
}

#[test]
fn length_short_form() {
    assert_eq!(decode_length(&[0x00], false), Ok((Length::Definite(0), 1)));
    assert_eq!(decode_length(&[0x7e, 0xaa], false), Ok((Length::Definite(126), 1)));
    assert_eq!(decode_length(&[0x7e, 0xaa], true), Ok((Length::Definite(126), 1)));
}

#[test]
fn length_reserved_octets() {
    assert_eq!(decode_length(&[0x7f], false), Err(Error::InvalidLength));
    assert_eq!(decode_length(&[0x7f], true), Err(Error::InvalidLength));
    assert_eq!(decode_length(&[0xff, 0x01], false), Err(Error::InvalidLength));
    assert_eq!(decode_length(&[0xff, 0x01], true), Err(Error::InvalidLength));
}

#[test]
fn length_empty_input() {
    assert_eq!(decode_length(&[], false), Err(Error::InvalidLength));
}

#[test]
fn length_long_form() {
    assert_eq!(decode_length(&[0x81, 0x7f], true), Ok((Length::Definite(127), 2)));
    assert_eq!(decode_length(&[0x81, 0x80], true), Ok((Length::Definite(128), 2)));
    assert_eq!(decode_length(&[0x82, 0x01, 0x00, 0x55], true), Ok((Length::Definite(256), 3)));
    assert_eq!(
        decode_length(&[0x83, 0x01, 0x00, 0x00], false),
        Ok((Length::Definite(65536), 4))
    );
}

#[test]
fn length_long_form_cut_short() {
    assert_eq!(decode_length(&[0x82, 0x01], false), Err(Error::InvalidLength));
    assert_eq!(decode_length(&[0x81], true), Err(Error::InvalidLength));
}

#[test]
fn length_not_canonical() {
    // the long form for a length that the short form holds
    assert_eq!(decode_length(&[0x81, 0x05], false), Ok((Length::Definite(5), 2)));
    assert_eq!(decode_length(&[0x81, 0x05], true), Err(Error::InvalidLength));
    // a leading zero
    assert_eq!(decode_length(&[0x82, 0x00, 0xff], false), Ok((Length::Definite(255), 3)));
    assert_eq!(decode_length(&[0x82, 0x00, 0xff], true), Err(Error::InvalidLength));
}

#[test]
fn length_too_large() {
    let bytes = [0x89, 0x01, 0, 0, 0, 0, 0, 0, 0, 0];
    assert_eq!(decode_length(&bytes, false), Err(Error::InvalidLength));
    let zeros = [0x89, 0, 0, 0, 0, 0, 0, 0, 0, 0x09];
    assert_eq!(decode_length(&zeros, false), Ok((Length::Definite(9), 10)));
}

#[test]
fn length_indefinite() {
    assert_eq!(decode_length(&[0x80], false), Ok((Length::Indefinite, 1)));
    assert_eq!(decode_length(&[0x80], true), Err(Error::IndefiniteLengthUnexpected));
}

#[test]
fn length_written() {
    let mut out = vec![0xaa];
    assert_eq!(Length::Definite(0).write_der(&mut out), Ok(1));
    assert_eq!(Length::Definite(126).write_der(&mut out), Ok(1));
    assert_eq!(Length::Definite(127).write_der(&mut out), Ok(2));
    assert_eq!(Length::Definite(256).write_der(&mut out), Ok(3));
    assert_eq!(Length::Definite(65536).write_der(&mut out), Ok(4));
    assert_eq!(out, vec![0xaa, 0x00, 0x7e, 0x81, 0x7f, 0x82, 0x01, 0x00, 0x83, 0x01, 0x00, 0x00]);
}

#[test]
fn length_indefinite_is_not_written() {
    let mut out = vec![1, 2];
    assert_eq!(
        Length::Indefinite.write_der(&mut out),
        Err(SerializeError::ASN1Error(Error::IndefiniteLengthUnexpected))
    );
    assert_eq!(out, vec![1, 2]);
    assert_eq!(Length::Indefinite.to_der_len(), Err(Error::IndefiniteLengthUnexpected));
}

#[test]
fn length_octets_counted() {
    assert_eq!(Length::Definite(0).to_der_len(), Ok(1));
    assert_eq!(Length::Definite(126).to_der_len(), Ok(1));
    assert_eq!(Length::Definite(127).to_der_len(), Ok(2));
    assert_eq!(Length::Definite(255).to_der_len(), Ok(2));
    assert_eq!(Length::Definite(256).to_der_len(), Ok(3));
    assert_eq!(Length::Definite(65535).to_der_len(), Ok(3));
    assert_eq!(Length::Definite(65536).to_der_len(), Ok(4));
    assert!(Length::Definite(3).is_definite());
    assert!(!Length::Indefinite.is_definite());
}

#[test]
fn identifier_short_form() {
    let id = Identifier { class: Class::Universal, constructed: true, tag: 16 };
    assert_eq!(decode_identifier(&[0x30, 0x00], true), Ok((id, 1)));
    let id = Identifier { class: Class::ContextSpecific, constructed: false, tag: 3 };
    assert_eq!(decode_identifier(&[0x83], false), Ok((id, 1)));
    let id = Identifier { class: Class::Private, constructed: true, tag: 30 };
    assert_eq!(decode_identifier(&[0xfe], false), Ok((id, 1)));
}

#[test]
fn identifier_long_form() {
    let id = Identifier { class: Class::Application, constructed: false, tag: 31 };
    assert_eq!(decode_identifier(&[0x5f, 0x1f], true), Ok((id, 2)));
    let id = Identifier { class: Class::Universal, constructed: false, tag: 128 };
    assert_eq!(decode_identifier(&[0x1f, 0x81, 0x00, 0x77], true), Ok((id, 3)));
    let id = Identifier { class: Class::Universal, constructed: false, tag: u32::MAX };
    assert_eq!(decode_identifier(&[0x1f, 0x8f, 0xff, 0xff, 0xff, 0x7f], true), Ok((id, 6)));
}

#[test]
fn identifier_failures() {
    assert_eq!(decode_identifier(&[], false), Err(Error::InvalidTag));
    assert_eq!(decode_identifier(&[0x1f], false), Err(Error::InvalidTag));
    assert_eq!(decode_identifier(&[0x1f, 0x81], false), Err(Error::InvalidTag));
    assert_eq!(
        decode_identifier(&[0x1f, 0xff, 0xff, 0xff, 0xff, 0x7f], false),
        Err(Error::InvalidTag)
    );
}

#[test]
fn identifier_not_canonical() {
    let id = Identifier { class: Class::Universal, constructed: false, tag: 5 };
    assert_eq!(decode_identifier(&[0x1f, 0x05], false), Ok((id, 2)));
    assert_eq!(decode_identifier(&[0x1f, 0x05], true), Err(Error::InvalidTag));
    let id = Identifier { class: Class::Universal, constructed: false, tag: 40 };
    assert_eq!(decode_identifier(&[0x1f, 0x80, 0x28], false), Ok((id, 3)));
    assert_eq!(decode_identifier(&[0x1f, 0x80, 0x28], true), Err(Error::InvalidTag));
}

#[test]
fn identifier_written() {
    let mut out = Vec::new();
    let id = Identifier { class: Class::Universal, constructed: true, tag: 16 };
    assert_eq!(write_identifier(&id, &mut out), 1);
    let id = Identifier { class: Class::Application, constructed: false, tag: 31 };
    assert_eq!(write_identifier(&id, &mut out), 2);
    let id = Identifier { class: Class::Private, constructed: true, tag: 128 };
    assert_eq!(write_identifier(&id, &mut out), 3);
    let id = Identifier { class: Class::Universal, constructed: false, tag: u32::MAX };
    assert_eq!(write_identifier(&id, &mut out), 6);
    assert_eq!(
        out,
        vec![0x30, 0x5f, 0x1f, 0xff, 0x81, 0x00, 0x1f, 0x8f, 0xff, 0xff, 0xff, 0x7f]
    );
    assert_eq!(identifier_len(&id), 6);
    let id = Identifier { class: Class::Universal, constructed: false, tag: 30 };
    assert_eq!(identifier_len(&id), 1);
    let id = Identifier { class: Class::Universal, constructed: false, tag: 16384 };
    assert_eq!(identifier_len(&id), 4);
}

#[test]
fn header_decoded() {
    let h = Header::new(Class::Universal, true, 16, Length::Definite(3));
    assert_eq!(Header::decode(&[0x30, 0x03, 1, 2, 3], true), Ok((h, 2)));
    let h = Header::new(Class::Universal, false, 12, Length::Definite(300));
    assert_eq!(Header::decode(&[0x0c, 0x82, 0x01, 0x2c], true), Ok((h, 4)));
    let (rest, got) = Header::from_der(&[0x0c, 0x82, 0x01, 0x2c, 0x99]).unwrap();
    assert_eq!(got, h);
    assert_eq!(rest, &[0x99]);
    let (rest, got) = Header::from_ber(&[0x0c, 0x82, 0x01, 0x2c]).unwrap();
    assert_eq!(got, h);
    assert!(rest.is_empty());
}

#[test]
fn header_cut_short_is_malformed() {
    assert_eq!(Header::decode(&[], false), Err(Error::InvalidTag));
    assert_eq!(Header::decode(&[0x30], false), Err(Error::InvalidLength));
    assert_eq!(Header::decode(&[0x30, 0x82, 0x01], false), Err(Error::InvalidLength));
    assert_eq!(Header::from_ber(&[0x30]), Err(ParseError::Error(Error::InvalidLength)));
    assert_eq!(Error::InvalidLength.kind(), ErrorKind::Format);
    assert_eq!(Error::InvalidTag.kind(), ErrorKind::Format);
}

#[test]
fn der_rejects_indefinite_length() {
    let bytes = [0x30, 0x80, 0x00, 0x00];
    let h = Header::new(Class::Universal, true, 16, Length::Indefinite);
    assert_eq!(Header::decode(&bytes, false), Ok((h, 2)));
    let e = Header::decode(&bytes, true).unwrap_err();
    assert_eq!(e, Error::IndefiniteLengthUnexpected);
    assert_eq!(e.kind(), ErrorKind::Format);
    assert_eq!(
        Header::from_der(&bytes),
        Err(ParseError::Error(Error::IndefiniteLengthUnexpected))
    );
}

#[test]
fn primitive_with_indefinite_length() {
    assert_eq!(
        Header::decode(&[0x0c, 0x80, 0x00, 0x00], false),
        Err(Error::IndefiniteLengthUnexpected)
    );
}

#[test]
fn header_written() {
    let mut out = vec![0x01];
    let h = Header::new(Class::Universal, true, 16, Length::Definite(130));
    assert_eq!(h.write_der_header(&mut out), Ok(3));
    assert_eq!(out, vec![0x01, 0x30, 0x81, 0x82]);
    assert_eq!(h.to_der_len(), Ok(3));
    assert_eq!(h.to_der_len_with_content(), Ok(133));
    let h = Header::new(Class::Universal, true, 16, Length::Indefinite);
    assert_eq!(
        h.write_der_header(&mut out),
        Err(SerializeError::ASN1Error(Error::IndefiniteLengthUnexpected))
    );
    assert_eq!(out, vec![0x01, 0x30, 0x81, 0x82]);
    assert_eq!(h.to_der_len(), Err(Error::IndefiniteLengthUnexpected));
    assert_eq!(h.to_der_len_with_content(), Err(Error::IndefiniteLengthUnexpected));
}

#[test]
fn header_length_overflow() {
    let h = Header::new(Class::Universal, true, 16, Length::Definite(usize::MAX));
    assert_eq!(h.to_der_len_with_content(), Err(Error::InvalidLength));
}

#[test]
fn header_roundtrip() {
    for tag in [0u32, 30, 31, 127, 128, 16383, 16384, u32::MAX] {
        for len in [0usize, 126, 127, 128, 255, 256, 65535, 65536] {
            let h = Header::new(Class::ContextSpecific, true, tag, Length::Definite(len));
            let mut out = Vec::new();
            let n = h.write_der_header(&mut out).unwrap();
            assert_eq!(n, out.len());
            assert_eq!(h.to_der_len(), Ok(n));
            out.push(0x55);
            assert_eq!(Header::decode(&out, true), Ok((h, n)));
            assert_eq!(Header::decode(&out, false), Ok((h, n)));
        }
    }
}

#[test]
fn header_shape_checks() {
    let h = Header::new(Class::Universal, true, 16, Length::Definite(0));
    assert!(h.is_constructed());
    assert!(!h.is_primitive());
    assert_eq!(h.assert_constructed(), Ok(()));
    assert_eq!(h.assert_primitive(), Err(Error::ConstructUnexpected));
    let h = Header::new(Class::Universal, false, 12, Length::Definite(0));
    assert_eq!(h.assert_constructed(), Err(Error::ConstructExpected));
    assert_eq!(h.assert_primitive(), Ok(()));
    assert_eq!(h.identifier(), Identifier { class: Class::Universal, constructed: false, tag: 12 });
}

#[test]
fn identifier_cut_short() {
    assert!(identifier_cut(&[]));
    assert!(identifier_cut(&[0x1f]));
    assert!(identifier_cut(&[0x1f, 0x81]));
    assert!(identifier_cut(&[0x1f, 0x80]));
    assert!(!identifier_cut(&[0x0c]));
    assert!(!identifier_cut(&[0x1f, 0x1f]));
    assert!(!identifier_cut(&[0x1f, 0x81, 0x00]));
    // the number is too large before the input ends
    assert!(!identifier_cut(&[0x1f, 0xff, 0xff, 0xff, 0xff, 0xff]));
}

#[test]
fn length_cut_short() {
    assert_eq!(length_cut(&[]), Some(Needed::Size(1)));
    assert_eq!(length_cut(&[0x82]), Some(Needed::Size(2)));
    assert_eq!(length_cut(&[0x82, 0x01]), Some(Needed::Size(1)));
    assert_eq!(length_cut(&[0x82, 0x01, 0x00]), None);
    assert_eq!(length_cut(&[0x05]), None);
    assert_eq!(length_cut(&[0x80]), None);
    assert_eq!(length_cut(&[0x7f]), None);
    assert_eq!(length_cut(&[0xff]), None);
}

#[test]
fn header_cut_short() {
    assert_eq!(Header::cut(&[], true), Some(Needed::Size(1)));
    assert_eq!(Header::cut(&[0x30], false), Some(Needed::Size(1)));
    assert_eq!(Header::cut(&[0x30, 0x83, 0x01], true), Some(Needed::Size(2)));
    assert_eq!(Header::cut(&[0x30, 0x03], true), None);
    assert_eq!(Header::cut(&[0x30, 0xff], true), None);
    // the identifier is whole and not canonical
    assert_eq!(Header::cut(&[0x1f, 0x05], true), None);
    assert_eq!(Header::cut(&[0x1f, 0x05], false), Some(Needed::Size(1)));
}

#[test]
fn header_of_an_element() {
    let h = Header::new(Class::Universal, true, 16, Length::Definite(3));
    assert_eq!(Header::decode_element(&[0x30, 0x03, 1], true), Ok((h, 2)));
    assert_eq!(
        Header::decode_element(&[0x30], true),
        Err(ParseError::Incomplete(Needed::Size(1)))
    );
    assert_eq!(
        Header::decode_element(&[0x30, 0x82, 0x01], false),
        Err(ParseError::Incomplete(Needed::Size(1)))
    );
    assert_eq!(
        Header::decode_element(&[0x30, 0x7f], false),
        Err(ParseError::Error(Error::InvalidLength))
    );
    assert_eq!(
        Header::decode_element(&[0x30, 0x80], true),
        Err(ParseError::Error(Error::IndefiniteLengthUnexpected))
    );
    // the header codec itself reports input that is cut short as malformed
    assert_eq!(Header::decode(&[0x30], true), Err(Error::InvalidLength));
    assert_eq!(Header::from_der(&[0x30]), Err(ParseError::Error(Error::InvalidLength)));
}
