use row2pgcsv::arr::{to_writer, SerError};
use row2pgcsv::value::Value;

fn literal<T: row2pgcsv::arr::Encode>(val: &T) -> String {
    let mut wtr: Vec<u8> = vec![];
    to_writer(&mut wtr, val).unwrap();
    String::from_utf8(wtr).unwrap()
}

#[test]
fn primes() {
    let v: Vec<i16> = vec![2, 3, 5, 7, 11];
    assert_eq!(literal(&v), "{2,3,5,7,11}");
}

#[test]
fn pairs_of_heights() {
    let v: Vec<Vec<i32>> = vec![vec![333, 634], vec![599, 3776]];
    assert_eq!(literal(&v), "{{333,634},{599,3776}}");
}

#[test]
fn empty_top_container() {
    let v: Vec<Vec<i64>> = vec![];
    assert_eq!(literal(&v), "{}");
}

#[test]
fn negative_numbers() {
    let v: Vec<i32> = vec![-1, 0, 1, -2147483648, 2147483647];
    assert_eq!(literal(&v), "{-1,0,1,-2147483648,2147483647}");
}

#[test]
fn widest_integers() {
    let a: Vec<i64> = vec![i64::MIN, i64::MAX];
    assert_eq!(literal(&a), "{-9223372036854775808,9223372036854775807}");
    let b: Vec<u64> = vec![0, u64::MAX];
    assert_eq!(literal(&b), "{0,18446744073709551615}");
    let c: Vec<i8> = vec![i8::MIN, i8::MAX];
    assert_eq!(literal(&c), "{-128,127}");
    let d: Vec<u8> = vec![0, 255];
    assert_eq!(literal(&d), "{0,255}");
    let e: Vec<u16> = vec![65535];
    assert_eq!(literal(&e), "{65535}");
    let f: Vec<u32> = vec![4294967295];
    assert_eq!(literal(&f), "{4294967295}");
}

#[test]
fn every_integer_reads_as_std_prints_it() {
    let samples: Vec<i64> = vec![0, 9, 10, 11, 99, 100, 101, 12345, -7, -10, -99, -100, 1000000007];
    for n in samples {
        assert_eq!(literal(&n), format!("{}", n));
    }
}

#[test]
fn single_values_at_the_top() {
    assert_eq!(literal(&42i32), "42");
    assert_eq!(literal(&true), "true");
    assert_eq!(literal(&false), "false");
    assert_eq!(literal(&'x'), "x");
    assert_eq!(literal(&String::from("mount")), "mount");
}

#[test]
fn booleans_in_a_sequence() {
    let v: Vec<bool> = vec![true, false, true];
    assert_eq!(literal(&v), "{true,false,true}");
}

#[test]
fn characters_of_every_width() {
    let v: Vec<char> = vec!['a', '\u{e9}', '\u{20ac}', '\u{1f600}', '\u{7f}', '\u{80}', '\u{7ff}', '\u{800}', '\u{ffff}', '\u{10000}', '\u{10ffff}'];
    for c in v {
        assert_eq!(literal(&c), c.to_string());
    }
}

#[test]
fn text_is_written_raw() {
    let v: Vec<String> = vec![String::from("a,b"), String::from("{x}"), String::from("gr\u{fc}n")];
    assert_eq!(literal(&v), "{a,b,{x},gr\u{fc}n}");
}

#[test]
fn missing_values_are_empty() {
    let none: Option<i32> = None;
    assert_eq!(literal(&none), "");
    assert_eq!(literal(&Some(5i32)), "5");
    let v: Vec<Option<i32>> = vec![Some(1), None, Some(3)];
    assert_eq!(literal(&v), "{1,,3}");
}

#[test]
fn empty_sequence_before_a_sibling() {
    let v: Vec<Vec<i16>> = vec![vec![], vec![3]];
    assert_eq!(literal(&v), "{{},{3}}");
    let w: Vec<Vec<i16>> = vec![vec![], vec![], vec![]];
    assert_eq!(literal(&w), "{{},{},{}}");
}

#[test]
fn four_levels_of_empty_sequences() {
    let v: Vec<Vec<Vec<Vec<i16>>>> = vec![vec![vec![vec![]]]];
    assert_eq!(literal(&v), "{{{{}}}}");
}

#[test]
fn braces_match_the_number_of_sequences() {
    let v: Vec<Vec<Vec<i32>>> = vec![vec![vec![1, 2], vec![]], vec![], vec![vec![-3]]];
    let s = literal(&v);
    assert_eq!(s, "{{{1,2},{}},{},{{-3}}}");
    let open = s.bytes().filter(|b| *b == b'{').count();
    let close = s.bytes().filter(|b| *b == b'}').count();
    assert_eq!(open, 7);
    assert_eq!(close, 7);
}

#[test]
fn no_blank_and_no_trailing_comma() {
    let v: Vec<i64> = vec![10, -20, 30];
    let s = literal(&v);
    assert!(!s.contains(' '));
    assert!(!s.contains('\n'));
    assert!(!s.ends_with(",}"));
    assert_eq!(s.matches(',').count(), 2);
}

#[test]
fn dynamic_values_read_like_static_ones() {
    let v = Value::List(vec![
        Value::List(vec![Value::Signed(333), Value::Unsigned(634)]),
        Value::List(vec![]),
        Value::List(vec![Value::Bool(true), Value::Char('c'), Value::Text(String::from("t")), Value::Absent]),
    ]);
    assert_eq!(literal(&v), "{{333,634},{},{true,c,t,}}");
}

#[test]
fn row_of_fields() {
    let row = Value::Row(vec![
        (String::from("a"), Value::List(vec![Value::Signed(1), Value::Signed(2)])),
        (String::from("i"), Value::Signed(3)),
    ]);
    assert_eq!(literal(&row), "{1,2}3\n");
}

#[test]
fn row_with_an_empty_sequence() {
    let row = Value::Row(vec![(String::from("a"), Value::List(vec![]))]);
    assert_eq!(literal(&row), "{}\n");
    let none = Value::Row(vec![]);
    assert_eq!(literal(&none), "\n");
}

#[test]
fn byte_blob_is_refused() {
    let mut wtr: Vec<u8> = vec![];
    let r = to_writer(&mut wtr, &Value::Bytes(vec![1, 2, 3]));
    match r {
        Err(SerError::Msg(m)) => assert_eq!(m, "unsupported shape"),
        _ => panic!("a byte blob was not refused"),
    }
    assert!(wtr.is_empty());
}

#[test]
fn keyed_map_is_refused() {
    let mut wtr: Vec<u8> = vec![];
    let map = Value::Keyed(vec![(Value::Text(String::from("k")), Value::Signed(1))]);
    let r = to_writer(&mut wtr, &map);
    assert!(matches!(r, Err(SerError::Msg(_))));
    assert!(wtr.is_empty());
}

#[test]
fn tuple_is_refused() {
    let mut wtr: Vec<u8> = vec![];
    let r = to_writer(&mut wtr, &Value::Tuple(vec![Value::Signed(1), Value::Bool(true)]));
    assert!(matches!(r, Err(SerError::Msg(_))));
    assert!(wtr.is_empty());
}

#[test]
fn refusal_comes_behind_what_was_written() {
    let mut wtr: Vec<u8> = vec![];
    let v = Value::List(vec![
        Value::Signed(1),
        Value::List(vec![Value::Signed(2), Value::Bytes(vec![0]), Value::Signed(4)]),
        Value::Signed(5),
    ]);
    let r = to_writer(&mut wtr, &v);
    assert!(matches!(r, Err(SerError::Msg(_))));
    assert_eq!(String::from_utf8(wtr).unwrap(), "{1,{2,");
}

#[test]
fn row_below_the_top_is_refused() {
    let mut wtr: Vec<u8> = vec![];
    let inner = Value::Row(vec![(String::from("x"), Value::Signed(1))]);
    let r = to_writer(&mut wtr, &Value::List(vec![Value::Signed(7), inner]));
    assert!(matches!(r, Err(SerError::Msg(_))));
    assert_eq!(String::from_utf8(wtr).unwrap(), "{7,");

    let mut wtr2: Vec<u8> = vec![];
    let nested = Value::Row(vec![
        (String::from("a"), Value::Signed(1)),
        (String::from("b"), Value::Row(vec![])),
    ]);
    let r2 = to_writer(&mut wtr2, &nested);
    assert!(matches!(r2, Err(SerError::Msg(_))));
    assert_eq!(String::from_utf8(wtr2).unwrap(), "1");
}

#[test]
fn output_follows_what_the_sink_held() {
    let mut wtr: Vec<u8> = b"x=".to_vec();
    let v: Vec<u8> = vec![1, 2];
    to_writer(&mut wtr, &v).unwrap();
    to_writer(&mut wtr, &v).unwrap();
    assert_eq!(String::from_utf8(wtr).unwrap(), "x={1,2}{1,2}");
}
