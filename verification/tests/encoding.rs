use wasm_migrate::body::read_locals;
use wasm_migrate::leb::encode_u32;
use wasm_migrate::section::Section;
use wasm_migrate::types::{MigrateError, ValType};

#[test]
fn integers_take_seven_bits_to_a_byte() {
    assert_eq!(encode_u32(0), vec![0x00]);
    assert_eq!(encode_u32(127), vec![0x7f]);
    assert_eq!(encode_u32(128), vec![0x80, 0x01]);
    assert_eq!(encode_u32(624_485), vec![0xe5, 0x8e, 0x26]);
    assert_eq!(encode_u32(u32::MAX), vec![0xff, 0xff, 0xff, 0xff, 0x0f]);
}

/// The size of the only run of locals, and the position behind it.
fn run_of_locals(count: &[u8]) -> Result<(u32, usize), MigrateError> {
    let mut body = vec![1u8];
    body.extend_from_slice(count);
    body.push(0x7f);
    match read_locals(&body) {
        Ok((groups, end)) => Ok((groups[0].count, end)),
        Err(error) => Err(error),
    }
}

#[test]
fn integers_are_read_back() {
    for n in [0, 1, 127, 128, 16_383, 16_384, 624_485, u32::MAX - 1, u32::MAX] {
        let encoded = encode_u32(n);
        assert_eq!(run_of_locals(&encoded), Ok((n, encoded.len() + 2)));
    }
}

#[test]
fn integers_may_be_padded_up_to_five_bytes() {
    assert_eq!(run_of_locals(&[0x85, 0x80, 0x00]), Ok((5, 5)));
    assert_eq!(run_of_locals(&[0x85, 0x80, 0x80, 0x80, 0x00]), Ok((5, 7)));
    assert_eq!(run_of_locals(&[0x85, 0x80, 0x80, 0x80, 0x0f]), Ok((0xf000_0005, 7)));
    assert_eq!(run_of_locals(&[0x85, 0x80, 0x80, 0x80, 0x10]), Err(MigrateError::Parse));
    assert_eq!(run_of_locals(&[0x85, 0x80, 0x80, 0x80, 0x80, 0x00]), Err(MigrateError::Parse));
}

#[test]
fn sections_are_appended() {
    let mut section = Section::new();
    assert!(section.is_empty());
    assert_eq!(section.contents().unwrap(), vec![0x00]);
    let more = Section { count: 2, entries: vec![5, 6, 7] };
    assert!(section.append(&more));
    assert!(section.append(&more));
    assert_eq!(section.contents().unwrap(), vec![0x04, 5, 6, 7, 5, 6, 7]);
    let full = Section { count: u32::MAX, entries: vec![] };
    assert!(!section.append(&full));
    assert_eq!(section.count, 4);
}

#[test]
fn types_have_their_codes() {
    assert_eq!(ValType::from_code(0x7f), ValType::I32);
    assert_eq!(ValType::from_code(0x7e), ValType::I64);
    assert_eq!(ValType::from_code(0x7d), ValType::F32);
    assert_eq!(ValType::from_code(0x7c), ValType::F64);
    assert_eq!(ValType::from_code(0x7b), ValType::V128);
    assert_eq!(ValType::from_code(0x70), ValType::Ref);
    assert_eq!(ValType::from_encoding(&vec![0x63, 0x70]), ValType::Ref);
    assert_eq!(ValType::from_encoding(&vec![]), ValType::Ref);
}
