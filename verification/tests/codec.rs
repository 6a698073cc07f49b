use bamsalvage::codec::{convert_qual, convert_sequence, get_hex_string};

#[test]
fn odd_length_sequence_drops_last_half_byte() {
    let packed = vec![0x12u8, 0x48, 0xf0];
    assert_eq!(convert_sequence(&packed, 0, 5), b"ACGTN".to_vec());
    let other_tail = vec![0x12u8, 0x48, 0xf7];
    assert_eq!(convert_sequence(&other_tail, 0, 5), b"ACGTN".to_vec());
}

#[test]
fn packed_bytes_follow_the_alphabet() {
    let packed = vec![0x12u8, 0x34, 0x80];
    assert_eq!(convert_sequence(&packed, 0, 5), b"ACMGT".to_vec());
}

#[test]
fn quality_thirty_is_question_mark() {
    let quals = vec![30u8, 30, 30, 30];
    assert_eq!(convert_qual(&quals, 0, 4), Some(b"????".to_vec()));
}

#[test]
fn quality_135_is_rejected() {
    let quals = vec![30u8, 135, 30];
    assert_eq!(convert_qual(&quals, 0, 3), None);
    assert_eq!(convert_qual(&quals, 2, 1), Some(b"?".to_vec()));
}

#[test]
fn hex_dump_is_centred_on_position() {
    let bytes = vec![0x00u8, 0x1f, 0x8b, 0xff, 0x0a];
    assert_eq!(get_hex_string(&bytes, 2, 2), b" 1F 8B".to_vec());
}
