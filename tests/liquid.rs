use liquid_array::bit_pack::{BitPackedArray, PACKED_OVERHEAD};
use liquid_array::bit_width::get_bit_width;
use liquid_array::fsst::{decode_span, encode_bytes, train_table, FsstArray, ESCAPE, FSST_OVERHEAD};
use liquid_array::liquid::{AsLiquidArray, LiquidArray};
use liquid_array::primitive::{LiquidPrimitiveArray, PrimitiveKind, PRIMITIVE_OVERHEAD};
use liquid_array::string::{dictionary_is_cheaper, LiquidStringArray};

fn bytes_of(rows: &[Option<&str>]) -> Vec<Option<Vec<u8>>> {
    rows.iter().map(|r| r.map(|s| s.as_bytes().to_vec())).collect()
}

fn select<T: Clone>(rows: &[T], mask: &[bool]) -> Vec<T> {
    rows.iter().zip(mask).filter(|(_, m)| **m).map(|(r, _)| r.clone()).collect()
}

#[test]
fn bit_width_of_small_and_edge_values() {
    assert_eq!(get_bit_width(0), 1);
    assert_eq!(get_bit_width(1), 1);
    assert_eq!(get_bit_width(2), 2);
    assert_eq!(get_bit_width(3), 2);
    assert_eq!(get_bit_width(255), 8);
    assert_eq!(get_bit_width(256), 9);
    assert_eq!(get_bit_width(1u64 << 63), 64);
    assert_eq!(get_bit_width(u64::MAX), 64);
}

#[test]
fn bit_packed_round_trip_and_random_access() {
    let values: Vec<u64> = (0..100u64).map(|i| (i * 37) % 512).collect();
    let packed = BitPackedArray::new(&values, 9);
    assert_eq!(packed.len(), 100);
    assert_eq!(packed.bit_width(), 9);
    assert_eq!(packed.to_vec(), values);
    assert_eq!(packed.get(57), values[57]);
    // 900 bits take 15 words.
    assert_eq!(packed.get_array_memory_size(), 15 * 8 + PACKED_OVERHEAD);
}

#[test]
fn bit_packed_full_width() {
    let values = vec![u64::MAX, 0, 1u64 << 63, 12345];
    let packed = BitPackedArray::new(&values, 64);
    assert_eq!(packed.to_vec(), values);
}

#[test]
fn bit_packed_filter_keeps_width() {
    let values = vec![1u64, 500, 2, 3];
    let packed = BitPackedArray::new(&values, 9);
    let kept = packed.filter(&vec![true, false, true, true]);
    assert_eq!(kept.bit_width(), 9);
    assert_eq!(kept.to_vec(), vec![1, 2, 3]);
}

#[test]
fn scenario_primitive_width_and_size() {
    let values = vec![Some(1u64), Some(2), Some(300), None, Some(4)];
    let array = LiquidPrimitiveArray::from_codes(PrimitiveKind::Int32, &values);
    assert_eq!(array.bit_width(), 9);
    assert_eq!(array.to_codes(), values);
    // One word for the 45 packed bits and one for the 5 validity bits.
    assert_eq!(array.get_array_memory_size(), 8 + 8 + 2 * PACKED_OVERHEAD + PRIMITIVE_OVERHEAD);
}

#[test]
fn primitive_round_trip_every_type() {
    let i8s: Vec<Option<i8>> = vec![Some(-128), None, Some(127), Some(0), Some(-1)];
    let a = LiquidPrimitiveArray::from_values(&i8s);
    assert_eq!(a.kind(), PrimitiveKind::Int8);
    assert_eq!(a.to_values::<i8>(), Some(i8s));
    assert_eq!(a.to_values::<u8>(), None);

    let i16s: Vec<Option<i16>> = vec![None, Some(i16::MIN), Some(i16::MAX), Some(-2)];
    assert_eq!(LiquidPrimitiveArray::from_values(&i16s).to_values::<i16>(), Some(i16s));

    let i32s: Vec<Option<i32>> = vec![Some(i32::MIN), Some(7), None, None];
    let a = LiquidPrimitiveArray::from_values(&i32s);
    assert_eq!(a.to_codes(), vec![Some(0x8000_0000), Some(7), None, None]);
    assert_eq!(a.bit_width(), 32);
    assert_eq!(a.to_values::<i32>(), Some(i32s));

    let i64s: Vec<Option<i64>> = vec![Some(i64::MIN), Some(i64::MAX), None, Some(0)];
    let a = LiquidPrimitiveArray::from_values(&i64s);
    assert_eq!(a.bit_width(), 64);
    assert_eq!(a.to_values::<i64>(), Some(i64s));

    let u8s: Vec<Option<u8>> = vec![Some(u8::MAX), None, Some(0)];
    assert_eq!(LiquidPrimitiveArray::from_values(&u8s).to_values::<u8>(), Some(u8s));
    let u16s: Vec<Option<u16>> = vec![Some(u16::MAX), Some(5), None];
    assert_eq!(LiquidPrimitiveArray::from_values(&u16s).to_values::<u16>(), Some(u16s));
    let u32s: Vec<Option<u32>> = vec![None, Some(u32::MAX), Some(1)];
    assert_eq!(LiquidPrimitiveArray::from_values(&u32s).to_values::<u32>(), Some(u32s));
    let u64s: Vec<Option<u64>> = vec![Some(u64::MAX), None, Some(0), Some(77)];
    let a = LiquidPrimitiveArray::from_values(&u64s);
    assert_eq!(a.kind(), PrimitiveKind::UInt64);
    assert_eq!(a.to_values::<u64>(), Some(u64s));
}

#[test]
fn primitive_codes_of_every_kind() {
    for (kind, max) in [
        (PrimitiveKind::UInt8, u8::MAX as u64),
        (PrimitiveKind::UInt16, u16::MAX as u64),
        (PrimitiveKind::UInt32, u32::MAX as u64),
        (PrimitiveKind::UInt64, u64::MAX),
    ] {
        let codes = vec![Some(max), None, Some(0), Some(max / 3)];
        let a = LiquidPrimitiveArray::from_codes(kind, &codes);
        assert_eq!(a.kind(), kind);
        assert_eq!(a.bit_width(), if max == u64::MAX { 64 } else { kind.bits() });
        assert_eq!(a.to_codes(), codes);
    }
}

#[test]
fn string_dictionary() {
    let rows = bytes_of(&[Some("ab"), None, Some("cd"), Some("ab"), Some("ab"), Some("")]);
    let a = LiquidStringArray::from_strings(&rows);
    let (values, keys) = a.to_dictionary();
    assert_eq!(values, vec![b"ab".to_vec(), b"cd".to_vec(), Vec::new()]);
    assert_eq!(keys, vec![Some(0), None, Some(1), Some(0), Some(0), Some(2)]);
    assert!(dictionary_is_cheaper(3, 6));
    assert!(!dictionary_is_cheaper(4, 7));
    assert!(dictionary_is_cheaper(0, 0));
}

#[test]
fn primitive_all_null_and_empty() {
    let codes: Vec<Option<u64>> = vec![None, None, None];
    let a = LiquidPrimitiveArray::from_codes(PrimitiveKind::UInt16, &codes);
    assert_eq!(a.bit_width(), 1);
    assert_eq!(a.to_codes(), codes);
    let empty = LiquidPrimitiveArray::from_codes(PrimitiveKind::UInt16, &Vec::new());
    assert!(empty.is_empty());
    assert_eq!(empty.to_codes(), Vec::<Option<u64>>::new());
}

#[test]
fn primitive_filter_matches_filtered_decode() {
    let codes: Vec<Option<u64>> = (0..70u64).map(|i| if i % 5 == 0 { None } else { Some(i * 3) }).collect();
    let mask: Vec<bool> = (0..70).map(|i| i % 3 != 1).collect();
    let a = LiquidPrimitiveArray::from_codes(PrimitiveKind::UInt32, &codes);
    let f = a.filter(&mask);
    assert_eq!(f.to_codes(), select(&codes, &mask));
    assert_eq!(f.len(), mask.iter().filter(|m| **m).count());
    assert_eq!(f.bit_width(), a.bit_width());
    assert!(f.get_array_memory_size() <= a.get_array_memory_size());
}

#[test]
fn primitive_filter_composition() {
    let codes: Vec<Option<u64>> = vec![Some(1), None, Some(3), Some(4), Some(5), None];
    let m1 = vec![true, true, false, true, false, true];
    let m2 = vec![false, true, true, true];
    let composed = vec![false, true, false, true, false, true];
    let a = LiquidPrimitiveArray::from_codes(PrimitiveKind::UInt8, &codes);
    let twice = a.filter(&m1).filter(&m2);
    let once = a.filter(&composed);
    assert_eq!(twice.to_codes(), once.to_codes());
    assert_eq!(once.to_codes(), vec![None, Some(4), None]);
}

#[test]
fn scenario_string_symbol_table() {
    let rows = bytes_of(&[Some("ab"), Some("ab"), Some("cd"), Some("ab")]);
    let a = LiquidStringArray::from_strings(&rows);
    assert!(a.has_symbol(&b"ab".to_vec()));
    assert!(!a.has_symbol(&b"cd".to_vec()));
    assert_eq!(a.to_strings(), rows);
}

#[test]
fn string_round_trip_edge_cases() {
    let cases = vec![
        bytes_of(&[]),
        bytes_of(&[Some(""), Some(""), None, Some("")]),
        bytes_of(&[None, None, None]),
        bytes_of(&[Some("abcabcabcabc"), Some("abcabcab"), Some("xabcabcabcabcabcabcy"), Some("abcabcab")]),
        bytes_of(&[Some("q"), Some("wxyz"), Some("0123456789"), None, Some("é!")]),
    ];
    for rows in cases {
        let a = LiquidStringArray::from_strings(&rows);
        assert_eq!(a.len(), rows.len());
        assert_eq!(a.to_strings(), rows);
    }
}

#[test]
fn string_no_repeats_has_empty_table() {
    let rows = bytes_of(&[Some("abcdefgh"), Some("ijklmnop"), Some("z")]);
    let a = LiquidStringArray::from_strings(&rows);
    assert_eq!(a.symbol_count(), 0);
    assert_eq!(a.to_strings(), rows);
}

#[test]
fn string_filter_matches_filtered_decode() {
    let rows = bytes_of(&[Some("red"), None, Some("green"), Some("red"), Some(""), Some("blue"), Some("green")]);
    let mask = vec![true, true, false, true, true, false, true];
    let a = LiquidStringArray::from_strings(&rows);
    let f = a.filter(&mask);
    assert_eq!(f.to_strings(), select(&rows, &mask));
    assert_eq!(f.symbol_count(), a.symbol_count());
    assert!(f.get_array_memory_size() <= a.get_array_memory_size());
    let none = a.filter(&vec![false; 7]);
    assert!(none.is_empty());
}

#[test]
fn fsst_codec_escapes_and_symbols() {
    let table = vec![b"ab".to_vec(), b"abcd".to_vec()];
    let codes = encode_bytes(&table, &b"abcdabz".to_vec());
    // Longest match first: "abcd", then "ab", then an escaped 'z'.
    assert_eq!(codes, vec![1, 0, ESCAPE, b'z']);
    assert_eq!(decode_span(&table, &codes, 0, codes.len()), b"abcdabz".to_vec());
}

#[test]
fn fsst_training_and_array() {
    let strings = vec![b"abcdefgh12".to_vec(), b"abcdefgh34".to_vec(), Vec::new(), b"12".to_vec()];
    let table = train_table(&strings);
    assert_eq!(table, vec![b"abcdefgh".to_vec(), b"12".to_vec()]);
    let a = FsstArray::new(&strings);
    assert_eq!(a.len(), 4);
    assert_eq!(a.symbol_count(), 2);
    assert!(a.has_symbol(&b"abcdefgh".to_vec()));
    assert!(!a.has_symbol(&b"34".to_vec()));
    assert_eq!(a.to_vec(), strings);
    assert_eq!(a.get(1), b"abcdefgh34".to_vec());
}

#[test]
fn narrowing_picks_the_right_encoding() {
    let p = LiquidArray::Primitive(LiquidPrimitiveArray::from_codes(PrimitiveKind::UInt8, &vec![Some(3)]));
    let s = LiquidArray::String(LiquidStringArray::from_strings(&bytes_of(&[Some("x")])));
    assert!(p.as_string_array_opt().is_none());
    assert!(p.as_primitive_array_opt::<u8>().is_some());
    assert!(p.as_primitive_array_opt::<i8>().is_none());
    assert!(p.as_primitive_array_opt::<u32>().is_none());
    assert!(s.as_string_array_opt().is_some());
    assert!(s.as_primitive_array_opt::<u8>().is_none());
    assert_eq!(p.as_primitive::<u8>().to_codes(), vec![Some(3)]);
    let q = LiquidArray::Primitive(LiquidPrimitiveArray::from_values(&vec![Some(-5i32), None]));
    assert!(q.as_primitive_array_opt::<i32>().is_some());
    assert!(q.as_primitive_array_opt::<u32>().is_none());
    assert!(q.as_primitive_array_opt::<i64>().is_none());
    assert_eq!(q.as_primitive::<i32>().to_values::<i32>(), Some(vec![Some(-5), None]));
    assert_eq!(s.as_string().to_strings(), bytes_of(&[Some("x")]));
}

#[test]
fn liquid_array_filter_and_size() {
    let p = LiquidArray::Primitive(LiquidPrimitiveArray::from_codes(
        PrimitiveKind::UInt64,
        &(0..200u64).map(Some).collect(),
    ));
    assert_eq!(p.len(), 200);
    assert!(!p.is_empty());
    let mask: Vec<bool> = (0..200).map(|i| i < 10).collect();
    let f = p.filter(&mask);
    assert_eq!(f.len(), 10);
    assert!(f.get_array_memory_size() < p.get_array_memory_size());
    assert_eq!(f.as_primitive::<u64>().to_codes(), (0..10u64).map(Some).collect::<Vec<_>>());
}

#[test]
fn row_access_by_index() {
    let p = LiquidPrimitiveArray::from_codes(PrimitiveKind::UInt16, &vec![Some(9), None, Some(1000)]);
    assert_eq!(p.get(0), Some(9));
    assert_eq!(p.get(1), None);
    assert_eq!(p.get(2), Some(1000));
    assert_eq!(p.bit_width(), 10);
    let s = LiquidStringArray::from_strings(&bytes_of(&[Some("one"), None, Some("")]));
    assert_eq!(s.get(0), Some(b"one".to_vec()));
    assert_eq!(s.get(1), None);
    assert_eq!(s.get(2), Some(Vec::new()));
}

#[test]
fn fsst_with_given_table() {
    let table = vec![b"xy".to_vec()];
    let strings = vec![b"xyxyz".to_vec(), b"".to_vec(), b"yx".to_vec()];
    let a = FsstArray::with_table(table, &strings);
    assert_eq!(a.symbol_count(), 1);
    assert_eq!(a.to_vec(), strings);
    // Codes: 2 symbols and an escape pair, nothing, then two escape pairs.
    let f = a.filter(&vec![true, false, true]);
    assert_eq!(f.to_vec(), vec![b"xyxyz".to_vec(), b"yx".to_vec()]);
    assert_eq!(f.get_array_memory_size(), 8 + 8 + 3 * 8 + FSST_OVERHEAD);
    assert!(f.get_array_memory_size() < a.get_array_memory_size());
}

#[test]
fn fsst_encoder_prefers_first_longest_symbol() {
    let table = vec![b"a".to_vec(), b"bc".to_vec(), b"ab".to_vec(), b"ab".to_vec()];
    let codes = encode_bytes(&table, &b"abcab".to_vec());
    // "ab" (first of the two equal ones), then "ca" is not a symbol: 'c' is
    // escaped, then "ab" again.
    assert_eq!(codes, vec![2, ESCAPE, b'c', 2]);
    assert_eq!(decode_span(&table, &codes, 0, codes.len()), b"abcab".to_vec());
}
