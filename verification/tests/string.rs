use asn1_rs::header::Header;
use asn1_rs::length::Length;
use asn1_rs::{
    to_der_vec, Any, CheckDerConstraints, Class, Error, ErrorKind, FromBer, FromDer, Needed,
    ParseError, SerializeError, Tagged, ToDer, ToStatic, TryFromAny, TAG_UTF8_STRING,
};

#[test]
fn string_tag() {
    assert_eq!(<String as Tagged>::TAG, 12);
    assert_eq!(TAG_UTF8_STRING, 12);
}

#[test]
fn string_from_any() {
    let h = Header::new(Class::Universal, false, 12, Length::Definite(5));
    assert_eq!(String::try_from_any(Any::new(h, b"hello")), Ok(String::from("hello")));
    let h = Header::new(Class::Universal, false, 12, Length::Definite(6));
    let bytes = "h\u{e9}\u{20ac}".as_bytes();
    assert_eq!(String::try_from_any(Any::new(h, bytes)), Ok(String::from("h\u{e9}\u{20ac}")));
}

#[test]
fn string_from_any_failures() {
    let h = Header::new(Class::Universal, false, 4, Length::Definite(1));
    let e = String::try_from_any(Any::new(h, b"a")).unwrap_err();
    assert_eq!(e, Error::UnexpectedTag { expected: 12, actual: 4 });
    let h = Header::new(Class::Private, false, 12, Length::Definite(1));
    let e = String::try_from_any(Any::new(h, b"a")).unwrap_err();
    assert_eq!(e, Error::UnexpectedClass { expected: Class::Universal, actual: Class::Private });
    let h = Header::new(Class::Universal, false, 12, Length::Definite(2));
    let e = String::try_from_any(Any::new(h, &[0xc3, 0x28])).unwrap_err();
    assert_eq!(e, Error::StringInvalidCharset);
    assert_eq!(e.kind(), ErrorKind::Format);
    let e = String::try_from_any(Any::new(h, &[0xed, 0xa0])).unwrap_err();
    assert_eq!(e, Error::StringInvalidCharset);
}

#[test]
fn der_constraint_on_strings() {
    let h = Header::new(Class::Universal, true, 12, Length::Definite(2));
    let any = Any::new(h, b"hi");
    let e = String::check_constraints(&any).unwrap_err();
    assert_eq!(e, Error::ConstructUnexpected);
    assert_eq!(e.kind(), ErrorKind::Constraint);
    assert_eq!(String::try_from_any(any), Ok(String::from("hi")));
    let bytes = [0x2c, 0x02, 0x68, 0x69];
    let e = String::from_der(&bytes).unwrap_err();
    assert_eq!(e, ParseError::Failure(Error::ConstructUnexpected));
    assert_eq!(e.flatten().kind(), ErrorKind::Constraint);
    assert_eq!(String::from_ber(&bytes), Ok((&[][..], String::from("hi"))));
    let h = Header::new(Class::Universal, false, 12, Length::Definite(2));
    assert_eq!(String::check_constraints(&Any::new(h, b"hi")), Ok(()));
}

#[test]
fn der_holds_the_tag_before_the_shape() {
    assert_eq!(
        String::from_der(&[0x30, 0x00]),
        Err(ParseError::Failure(Error::UnexpectedTag { expected: 12, actual: 16 }))
    );
}

#[test]
fn string_decoded() {
    let bytes = [0x0c, 0x03, 0x61, 0x62, 0x63, 0x0c];
    assert_eq!(String::from_der(&bytes), Ok((&[0x0c][..], String::from("abc"))));
    assert_eq!(String::from_ber(&bytes), Ok((&[0x0c][..], String::from("abc"))));
    assert_eq!(String::from_der(&[0x0c, 0x00]), Ok((&[][..], String::new())));
}

#[test]
fn string_decode_failures() {
    assert_eq!(String::from_der(&[0x0c, 0x03, 0x61]), Err(ParseError::Incomplete(Needed::Size(2))));
    assert_eq!(String::from_der(&[0x0c]), Err(ParseError::Incomplete(Needed::Size(1))));
    assert_eq!(String::from_ber(&[0x0c, 0x82, 0x01]), Err(ParseError::Incomplete(Needed::Size(1))));
    assert_eq!(
        String::from_der(&[0x0c, 0x01, 0xff]),
        Err(ParseError::Failure(Error::StringInvalidCharset))
    );
    assert_eq!(String::from_der(&[0x0c, 0x81, 0x01, 0x61]), Err(ParseError::Error(Error::InvalidLength)));
    assert_eq!(String::from_ber(&[0x0c, 0x81, 0x01, 0x61]), Ok((&[][..], String::from("a"))));
}

#[test]
fn string_written() {
    let s = String::from("hello");
    assert_eq!(s.to_der_len(), Ok(7));
    assert_eq!(to_der_vec(&s), Ok(vec![0x0c, 0x05, 0x68, 0x65, 0x6c, 0x6c, 0x6f]));
    let mut out = Vec::new();
    assert_eq!(s.write_der_header(&mut out), Ok(2));
    assert_eq!(out, vec![0x0c, 0x05]);
    assert_eq!(s.write_der_content(&mut out), Ok(5));
    let e: Result<usize, SerializeError> = String::new().write_der_header(&mut out);
    assert_eq!(e, Ok(2));
    assert_eq!(String::from("\u{20ac}").to_der_len(), Ok(5));
}

#[test]
fn string_length_threshold() {
    let cases: [(usize, usize); 8] = [
        (0, 2),
        (126, 128),
        (127, 130),
        (128, 131),
        (255, 258),
        (256, 260),
        (65535, 65539),
        (65536, 65541),
    ];
    for (size, total) in cases {
        let s = "x".repeat(size);
        assert_eq!(s.to_der_len(), Ok(total));
        let enc = to_der_vec(&s).unwrap();
        assert_eq!(enc.len(), total);
        assert_eq!(enc[0], 0x0c);
        if size < 127 {
            assert_eq!(enc[1] as usize, size);
        } else {
            assert_eq!(enc[1] as usize, 0x80 + (total - size - 2));
        }
    }
}

#[test]
fn string_roundtrip() {
    for text in ["", "a", "gr\u{fc}\u{df}e", "\u{1f600} and more"] {
        for repeat in [1usize, 40, 3000] {
            let s = text.repeat(repeat);
            let mut enc = to_der_vec(&s).unwrap();
            assert_eq!(s.to_der_len(), Ok(enc.len()));
            enc.push(0x00);
            assert_eq!(String::from_der(&enc), Ok((&[0x00][..], s.clone())));
            assert_eq!(String::from_ber(&enc), Ok((&[0x00][..], s.clone())));
        }
    }
}

#[test]
fn string_to_static() {
    let s = String::from("abc");
    let once = s.to_static();
    assert_eq!(once, s);
    assert_eq!(once.to_static(), once);
}
