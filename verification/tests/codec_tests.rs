use sudoku_sat::codec::{decode_name, encode_name};

#[test]
fn encode_name_is_the_delimited_triple() {
    assert_eq!(encode_name(1, 2, 3), "v_1_2_3");
    assert_eq!(encode_name(9, 9, 9), "v_9_9_9");
    assert_eq!(encode_name(12, 3, 255), "v_12_3_255");
}

#[test]
fn decode_inverts_encode() {
    for row in [1u8, 2, 9, 10, 99, 255] {
        for col in [1u8, 5, 9, 200] {
            for value in [1u8, 9, 16, 100] {
                let name = encode_name(row, col, value);
                assert_eq!(decode_name(&name), Some((row, col, value)));
            }
        }
    }
}

#[test]
fn decode_rejects_malformed_names() {
    assert_eq!(decode_name(""), None);
    assert_eq!(decode_name("v"), None);
    assert_eq!(decode_name("v_"), None);
    assert_eq!(decode_name("v_1"), None);
    assert_eq!(decode_name("v_1_2"), None);
    assert_eq!(decode_name("v_1_2_"), None);
    assert_eq!(decode_name("v_1_2_3_4"), None);
    assert_eq!(decode_name("w_1_2_3"), None);
    assert_eq!(decode_name("v_1_2_x"), None);
    assert_eq!(decode_name("v_01_2_3"), None);
    assert_eq!(decode_name("v_1_2_300"), None);
    assert_eq!(decode_name("v_1_2_3 "), None);
}
