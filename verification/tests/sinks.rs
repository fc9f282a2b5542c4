use row2pgcsv::arr::{to_writer, Ser, SerError};
use row2pgcsv::scalar::{boolean, character, signed, unsigned};
use row2pgcsv::sink::{Capped, Sink};
use row2pgcsv::value::Value;

#[test]
fn full_sink_reports_a_write_error() {
    let mut wtr = Capped::new(3);
    let v: Vec<i16> = vec![42, 333];
    let r = to_writer(&mut wtr, &v);
    match r {
        Err(SerError::WriteErr(e)) => assert_eq!(e, "the sink is full"),
        _ => panic!("the refused write was not reported"),
    }
    assert_eq!(wtr.bytes(), b"{42");
    assert_eq!(wtr.remaining(), 0);
}

#[test]
fn write_error_in_the_middle_of_a_number() {
    let mut wtr = Capped::new(5);
    let v: Vec<i32> = vec![7, 123456];
    let r = to_writer(&mut wtr, &v);
    assert!(matches!(r, Err(SerError::WriteErr(_))));
    assert_eq!(wtr.bytes(), b"{7,12");
}

#[test]
fn write_error_at_every_length_short_of_the_text() {
    let v: Vec<Vec<i16>> = vec![vec![333, 634], vec![], vec![599]];
    let mut whole: Vec<u8> = vec![];
    to_writer(&mut whole, &v).unwrap();
    assert_eq!(whole, b"{{333,634},{},{599}}");
    for limit in 0..whole.len() {
        let mut wtr = Capped::new(limit);
        let r = to_writer(&mut wtr, &v);
        assert!(matches!(r, Err(SerError::WriteErr(_))));
        assert_eq!(wtr.bytes(), &whole[..limit]);
    }
    let mut exact = Capped::new(whole.len());
    to_writer(&mut exact, &v).unwrap();
    assert_eq!(exact.bytes(), &whole[..]);
    assert_eq!(exact.remaining(), 0);
}

#[test]
fn room_to_spare_is_kept() {
    let mut wtr = Capped::new(10);
    let v: Vec<u8> = vec![1, 2];
    to_writer(&mut wtr, &v).unwrap();
    assert_eq!(wtr.bytes(), b"{1,2}");
    assert_eq!(wtr.remaining(), 5);
}

#[test]
fn write_error_on_the_closing_brace() {
    let mut wtr = Capped::new(1);
    let v: Vec<u8> = vec![];
    let r = to_writer(&mut wtr, &v);
    assert!(matches!(r, Err(SerError::WriteErr(_))));
    assert_eq!(wtr.bytes(), b"{");
}

#[test]
fn shape_error_before_the_sink_is_full() {
    let mut wtr = Capped::new(2);
    let v = Value::List(vec![Value::Bytes(vec![]), Value::Signed(123456)]);
    let r = to_writer(&mut wtr, &v);
    assert!(matches!(r, Err(SerError::Msg(_))));
    assert_eq!(wtr.bytes(), b"{");
}

#[test]
fn write_error_before_the_refused_shape() {
    let mut wtr = Capped::new(2);
    let v = Value::List(vec![Value::Signed(123456), Value::Bytes(vec![])]);
    let r = to_writer(&mut wtr, &v);
    assert!(matches!(r, Err(SerError::WriteErr(_))));
    assert_eq!(wtr.bytes(), b"{1");
}

#[test]
fn capped_sink_takes_what_fits() {
    let mut wtr = Capped::new(4);
    assert!(wtr.write_all(b"ab").is_ok());
    assert_eq!(wtr.remaining(), 2);
    assert!(wtr.write_all(b"").is_ok());
    assert!(wtr.write_all(b"cde").is_err());
    assert_eq!(wtr.bytes(), b"abcd");
    assert_eq!(wtr.remaining(), 0);
    assert!(wtr.write_all(b"").is_ok());
    assert!(wtr.write_all(b"f").is_err());
    assert_eq!(wtr.bytes(), b"abcd");
}

#[test]
fn growing_buffer_takes_everything() {
    let mut wtr: Vec<u8> = vec![9];
    assert!(wtr.write_all(b"abc").is_ok());
    assert!(wtr.write_all(b"").is_ok());
    assert_eq!(wtr, vec![9, b'a', b'b', b'c']);
}

#[test]
fn error_messages() {
    let shape = SerError::Msg(String::from("unsupported shape"));
    assert_eq!(shape.message(), "unsupported shape");
    let write = SerError::WriteErr(String::from("the sink is full"));
    assert_eq!(write.message(), "write error: the sink is full");
}

#[test]
fn digits_of_numbers() {
    assert_eq!(unsigned(0), b"0");
    assert_eq!(unsigned(7), b"7");
    assert_eq!(unsigned(10), b"10");
    assert_eq!(unsigned(3776), b"3776");
    assert_eq!(unsigned(u64::MAX), b"18446744073709551615");
    assert_eq!(signed(0), b"0");
    assert_eq!(signed(-1), b"-1");
    assert_eq!(signed(299792458), b"299792458");
    assert_eq!(signed(i64::MIN), b"-9223372036854775808");
    assert_eq!(boolean(true), b"true");
    assert_eq!(boolean(false), b"false");
    assert_eq!(character('A'), b"A");
    assert_eq!(character('\u{20ac}'), "\u{20ac}".as_bytes());
}

#[test]
fn sequence_by_hand() {
    let mut wtr: Vec<u8> = vec![];
    let top = Ser::new();
    let mut seq = top.serialize_seq(&mut wtr, Some(3)).unwrap();
    seq.serialize_element(&mut wtr, &1u8).unwrap();
    seq.serialize_element(&mut wtr, &true).unwrap();
    seq.separate(&mut wtr).unwrap();
    seq.serialize_str(&mut wtr, "raw").unwrap();
    seq.end(&mut wtr).unwrap();
    assert_eq!(String::from_utf8(wtr).unwrap(), "{1,true,raw}");
}

#[test]
fn row_by_hand() {
    let mut wtr: Vec<u8> = vec![];
    let top = Ser::new();
    let row = top.serialize_struct("Row", 2).unwrap();
    row.serialize_field(&mut wtr, "a", &vec![1i16, 2]).unwrap();
    row.serialize_field(&mut wtr, "b", &false).unwrap();
    assert!(row.serialize_struct("Inner", 0).is_err());
    row.end_struct(&mut wtr).unwrap();
    assert_eq!(String::from_utf8(wtr).unwrap(), "{1,2}false\n");
}

#[test]
fn refused_shapes_by_hand() {
    let top = Ser::new();
    assert!(matches!(top.serialize_bytes(b"blob"), Err(SerError::Msg(_))));
    assert!(matches!(top.serialize_tuple(2), Err(SerError::Msg(_))));
    assert!(matches!(top.serialize_map(None), Err(SerError::Msg(_))));
    assert!(matches!(top.serialize_variant("Some"), Err(SerError::Msg(_))));
}

#[test]
fn nothing_is_written_for_a_missing_value() {
    let mut wtr: Vec<u8> = vec![b'a'];
    let top = Ser::new();
    top.serialize_none(&mut wtr).unwrap();
    top.serialize_unit(&mut wtr).unwrap();
    top.serialize_some(&mut wtr, &5u32).unwrap();
    assert_eq!(wtr, b"a5");
}

#[test]
fn comma_unless_just_opened() {
    let mut wtr: Vec<u8> = vec![];
    let top = Ser::new();
    let mut seq = top.serialize_seq(&mut wtr, None).unwrap();
    seq.separate(&mut wtr).unwrap();
    assert_eq!(wtr, b"{");
    seq.separate(&mut wtr).unwrap();
    assert_eq!(wtr, b"{,");
    seq.separate(&mut wtr).unwrap();
    assert_eq!(wtr, b"{,,");
    seq.end(&mut wtr).unwrap();
    assert_eq!(wtr, b"{,,}");
}
