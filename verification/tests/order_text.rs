use nesstar_core::order::stable_order;
use nesstar_core::text::{decode_utf16, decode_utf16_field, encode_utf16le};

#[test]
fn stable_order_keeps_ties_in_place() {
    assert_eq!(stable_order(&vec![3, 1, 3, 0]), [3, 1, 0, 2]);
    assert_eq!(stable_order(&vec![]), Vec::<usize>::new());
    assert_eq!(stable_order(&vec![5, 5, 5]), [0, 1, 2]);
    let keys = vec![9u64, 2, 7, 2, 0, 9];
    let mut expected: Vec<usize> = (0..keys.len()).collect();
    expected.sort_by_key(|i| keys[*i]);
    assert_eq!(stable_order(&keys), expected);
}

#[test]
fn utf16_names_round_trip() {
    for name in ["NAME", "café", "x😀y"] {
        let chars: Vec<char> = name.chars().collect();
        let mut field = encode_utf16le(&chars);
        assert_eq!(field, name.encode_utf16().flat_map(u16::to_le_bytes).collect::<Vec<u8>>());
        let used = field.len();
        field.resize(80, 0);
        let decoded = decode_utf16_field(&field, 0, 40).unwrap();
        assert_eq!(decoded.into_iter().collect::<String>(), name);
        assert!(used <= 80);
    }
    assert_eq!(decode_utf16(&[0xD83D]), None);
    assert_eq!(decode_utf16(&[0x0041, 0xDE00]), None);
    assert_eq!(decode_utf16(&[0xD83D, 0xDE00]).map(|v| v.into_iter().collect::<String>()), Some("😀".to_string()));
}
