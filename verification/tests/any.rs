use asn1_rs::any::decode_any;
use asn1_rs::header::Header;
use asn1_rs::length::Length;
use asn1_rs::{
    to_der_vec, write_der, Any, Class, Error, ErrorKind, FromBer, FromDer, Needed, ParseError,
    ToDer, ToStatic, TryFromAny,
};
use std::borrow::Cow;

#[test]
fn any_definite_content() {
    let bytes = [0x04, 0x03, 0xaa, 0xbb, 0xcc, 0xdd];
    let (rest, any) = Any::from_der(&bytes).unwrap();
    assert_eq!(rest, &[0xdd]);
    assert_eq!(any.header, Header::new(Class::Universal, false, 4, Length::Definite(3)));
    assert_eq!(any.as_bytes(), &[0xaa, 0xbb, 0xcc]);
    assert!(matches!(any.data, Cow::Borrowed(_)));
    assert_eq!(any.tag(), 4);
    assert_eq!(any.class(), Class::Universal);
    let (rest, other) = Any::from_ber(&bytes).unwrap();
    assert_eq!(rest, &[0xdd]);
    assert_eq!(other, any);
}

#[test]
fn any_empty_content() {
    let (rest, any) = Any::from_der(&[0x05, 0x00]).unwrap();
    assert!(rest.is_empty());
    assert!(any.as_bytes().is_empty());
}

#[test]
fn any_incomplete_content() {
    let bytes = [0x04, 0x05, 0xaa, 0xbb];
    assert_eq!(Any::from_der(&bytes), Err(ParseError::Incomplete(Needed::Size(3))));
    assert_eq!(Any::from_ber(&bytes), Err(ParseError::Incomplete(Needed::Size(3))));
    assert_eq!(decode_any(&[0x04, 0x01], true), Err(ParseError::Incomplete(Needed::Size(1))));
    assert_eq!(Error::Incomplete(Needed::Size(3)).kind(), ErrorKind::Incomplete);
}

#[test]
fn any_malformed_header() {
    assert_eq!(Any::from_der(&[0x04, 0xff]), Err(ParseError::Error(Error::InvalidLength)));
    assert_eq!(Any::from_ber(&[0x04, 0x7f]), Err(ParseError::Error(Error::InvalidLength)));
    assert_eq!(Any::from_der(&[0x04, 0x81, 0x01, 0x00]), Err(ParseError::Error(Error::InvalidLength)));
    assert_eq!(Any::from_der(&[0x1f, 0x05, 0x00]), Err(ParseError::Error(Error::InvalidTag)));
    assert_eq!(
        Any::from_ber(&[0x1f, 0xff, 0xff, 0xff, 0xff, 0x7f, 0x00]),
        Err(ParseError::Error(Error::InvalidTag))
    );
    assert_eq!(
        Any::from_ber(&[0x04, 0x89, 0x01, 0, 0, 0, 0, 0, 0, 0, 0]),
        Err(ParseError::Error(Error::InvalidLength))
    );
    assert_eq!(
        Any::from_ber(&[0x04, 0x80, 0x00, 0x00]),
        Err(ParseError::Error(Error::IndefiniteLengthUnexpected))
    );
}

#[test]
fn any_header_cut_short_is_incomplete() {
    let one = Err(ParseError::Incomplete(Needed::Size(1)));
    assert_eq!(Any::from_ber(&[]), one);
    assert_eq!(Any::from_der(&[]), one);
    assert_eq!(Any::from_ber(&[0x04]), one);
    assert_eq!(Any::from_der(&[0x04]), one);
    assert_eq!(Any::from_ber(&[0x1f]), one);
    assert_eq!(Any::from_der(&[0x1f, 0x81]), one);
    assert_eq!(Any::from_der(&[0x1f, 0x81, 0x00]), one);
    assert_eq!(Any::from_der(&[0x04, 0x82]), Err(ParseError::Incomplete(Needed::Size(2))));
    assert_eq!(Any::from_der(&[0x04, 0x82, 0x01]), one);
    assert_eq!(Any::from_ber(&[0x04, 0x85, 0x01, 0x02]), Err(ParseError::Incomplete(Needed::Size(3))));
    assert_eq!(ParseError::Incomplete(Needed::Size(1)).flatten().kind(), ErrorKind::Incomplete);
}

#[test]
fn any_every_proper_prefix_is_incomplete() {
    let content = vec![0x41u8; 200];
    let any = Any::new(Header::new(Class::Application, true, 1000, Length::Definite(200)), &content);
    let enc = to_der_vec(&any).unwrap();
    assert_eq!(enc.len(), 205);
    for m in 1..enc.len() {
        let r = Any::from_der(&enc[..m]);
        assert!(matches!(r, Err(ParseError::Incomplete(_))), "prefix of {} octets", m);
        let r = Any::from_ber(&enc[..m]);
        assert!(matches!(r, Err(ParseError::Incomplete(_))), "prefix of {} octets", m);
    }
    assert!(Any::from_der(&enc).is_ok());
    let ber = [0x30, 0x80, 0x30, 0x80, 0x02, 0x01, 0x00, 0x00, 0x00, 0x0c, 0x81, 0x01, 0x61, 0x00, 0x00];
    for m in 1..ber.len() {
        let r = Any::from_ber(&ber[..m]);
        assert!(matches!(r, Err(ParseError::Incomplete(_))), "prefix of {} octets", m);
    }
    assert!(Any::from_ber(&ber).is_ok());
}

#[test]
fn any_indefinite_under_ber_and_der() {
    let bytes = [0x30, 0x80, 0x0c, 0x01, 0x61, 0x00, 0x00, 0x77];
    let (rest, any) = Any::from_ber(&bytes).unwrap();
    assert_eq!(rest, &[0x77]);
    assert_eq!(any.header, Header::new(Class::Universal, true, 16, Length::Indefinite));
    assert_eq!(any.as_bytes(), &[0x0c, 0x01, 0x61]);
    let e = Any::from_der(&bytes).unwrap_err();
    assert_eq!(e, ParseError::Error(Error::IndefiniteLengthUnexpected));
    assert_eq!(e.flatten().kind(), ErrorKind::Format);
}

#[test]
fn any_indefinite_empty() {
    let (rest, any) = Any::from_ber(&[0x30, 0x80, 0x00, 0x00]).unwrap();
    assert!(rest.is_empty());
    assert!(any.as_bytes().is_empty());
}

#[test]
fn any_indefinite_passes_over_zero_octets_in_values() {
    // the value of the INTEGER is one zero octet, and the marker follows it
    let bytes = [0x30, 0x80, 0x02, 0x01, 0x00, 0x00, 0x00];
    let (rest, any) = Any::from_ber(&bytes).unwrap();
    assert!(rest.is_empty());
    assert_eq!(any.as_bytes(), &[0x02, 0x01, 0x00]);
}

#[test]
fn any_indefinite_nested() {
    let bytes = [0x30, 0x80, 0x30, 0x80, 0x02, 0x01, 0x00, 0x00, 0x00, 0x00, 0x00, 0x42];
    let (rest, any) = Any::from_ber(&bytes).unwrap();
    assert_eq!(rest, &[0x42]);
    assert_eq!(any.as_bytes(), &[0x30, 0x80, 0x02, 0x01, 0x00, 0x00, 0x00]);
}

#[test]
fn any_indefinite_without_marker() {
    assert_eq!(
        Any::from_ber(&[0x30, 0x80, 0x0c, 0x01, 0x61]),
        Err(ParseError::Incomplete(Needed::Unknown))
    );
    assert_eq!(
        Any::from_ber(&[0x30, 0x80, 0x30, 0x80, 0x00, 0x00]),
        Err(ParseError::Incomplete(Needed::Unknown))
    );
    assert_eq!(Any::from_ber(&[0x30, 0x80]), Err(ParseError::Incomplete(Needed::Unknown)));
}

#[test]
fn any_indefinite_with_element_cut_short() {
    assert_eq!(
        Any::from_ber(&[0x30, 0x80, 0x0c, 0x04, 0x61]),
        Err(ParseError::Incomplete(Needed::Size(3)))
    );
    assert_eq!(
        Any::from_ber(&[0x30, 0x80, 0x0c]),
        Err(ParseError::Incomplete(Needed::Size(1)))
    );
    assert_eq!(
        Any::from_ber(&[0x30, 0x80, 0x0c, 0x7f]),
        Err(ParseError::Error(Error::InvalidLength))
    );
}

#[test]
fn any_from_itself() {
    let any = Any::new(Header::new(Class::Private, false, 7, Length::Definite(2)), &[1, 2]);
    let same = Any::try_from_any(any.clone()).unwrap();
    assert_eq!(same, any);
    assert_eq!(any.clone().into_cow(), Cow::Borrowed(&[1u8, 2][..]));
}

#[test]
fn any_written() {
    let any = Any::new(Header::new(Class::ContextSpecific, true, 1, Length::Indefinite), &[5, 0, 5]);
    assert_eq!(to_der_vec(&any), Ok(vec![0xa1, 0x03, 5, 0, 5]));
    assert_eq!(any.to_der_len(), Ok(5));
    let mut out = vec![9];
    assert_eq!(write_der(&any, &mut out), Ok(5));
    assert_eq!(out, vec![9, 0xa1, 0x03, 5, 0, 5]);
    let mut out = Vec::new();
    assert_eq!(any.write_der_header(&mut out), Ok(2));
    assert_eq!(any.write_der_content(&mut out), Ok(3));
    assert_eq!(out, vec![0xa1, 0x03, 5, 0, 5]);
}

#[test]
fn any_roundtrip() {
    let content = vec![0x5a; 300];
    let any = Any::new(Header::new(Class::Application, false, 1000, Length::Definite(300)), &content);
    let mut enc = to_der_vec(&any).unwrap();
    assert_eq!(any.to_der_len(), Ok(enc.len()));
    let n = enc.len();
    enc.push(0xee);
    let (rest, back) = Any::from_der(&enc).unwrap();
    assert_eq!(back, any);
    assert_eq!(rest.len(), enc.len() - n);
    let (rest, back) = Any::from_ber(&enc).unwrap();
    assert_eq!(back, any);
    assert_eq!(rest, &[0xee]);
}

#[test]
fn any_to_static_owns() {
    let owned: Any<'static> = {
        let buffer = vec![0x04, 0x02, 0x10, 0x20];
        let (_, any) = Any::from_der(&buffer).unwrap();
        any.to_static()
    };
    assert!(matches!(owned.data, Cow::Owned(_)));
    assert_eq!(owned.as_bytes(), &[0x10, 0x20]);
    let again = owned.to_static();
    assert_eq!(again, owned);
}

#[test]
fn der_input_is_its_own_encoding() {
    let inputs: [&[u8]; 5] = [
        &[0x04, 0x00],
        &[0x30, 0x03, 0x0c, 0x01, 0x61],
        &[0x5f, 0x1f, 0x01, 0xff],
        &[0xbf, 0x81, 0x00, 0x02, 0x01, 0x02],
        &[0x0c, 0x81, 0x7f],
    ];
    for input in inputs {
        let mut bytes = input.to_vec();
        if bytes == [0x0c, 0x81, 0x7f] {
            bytes.extend_from_slice(&[0x41; 127]);
        }
        let n = bytes.len();
        bytes.push(0x99);
        let (rest, any) = Any::from_der(&bytes).unwrap();
        assert_eq!(rest, &[0x99]);
        assert_eq!(to_der_vec(&any).unwrap(), bytes[..n].to_vec());
    }
}
