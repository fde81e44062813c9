use wasm_migrate::body::LocalGroup;
use wasm_migrate::layout::{assign_addresses, get_params_and_locals, size_of_slot};
use wasm_migrate::types::{MigrateError, ValType};

#[test]
fn slots_have_the_size_of_a_value() {
    assert_eq!(size_of_slot(ValType::I32), 4);
    assert_eq!(size_of_slot(ValType::I64), 8);
    assert_eq!(size_of_slot(ValType::F32), 4);
    assert_eq!(size_of_slot(ValType::F64), 8);
    assert_eq!(size_of_slot(ValType::V128), 16);
    assert_eq!(size_of_slot(ValType::Ref), 4);
}

#[test]
fn addresses_follow_one_another() {
    let types = vec![ValType::I32, ValType::V128, ValType::I64, ValType::F32];
    let (addresses, next) = assign_addresses(&types, 4);
    assert_eq!(addresses, vec![4, 8, 24, 32]);
    assert_eq!(next, 36);
    assert_eq!(assign_addresses(&vec![], 5), (vec![], 5));
}

#[test]
fn parameters_come_before_locals() {
    let function_to_type: Vec<u32> = vec![0, 1];
    let params = vec![vec![], vec![ValType::F64]];
    let groups = vec![
        LocalGroup { count: 2, ty: vec![0x7f] },
        LocalGroup { count: 0, ty: vec![0x7e] },
        LocalGroup { count: 1, ty: vec![0x7b] },
    ];
    assert_eq!(
        get_params_and_locals(&function_to_type, &params, 1, 0, &groups),
        Ok(vec![ValType::F64, ValType::I32, ValType::I32, ValType::V128])
    );
    assert_eq!(
        get_params_and_locals(&function_to_type, &params, 1, 1, &groups),
        Err(MigrateError::MissingType)
    );
    assert_eq!(
        get_params_and_locals(&vec![0, 5], &params, 1, 0, &groups),
        Err(MigrateError::MissingType)
    );
    assert_eq!(
        get_params_and_locals(&function_to_type, &params, u32::MAX, usize::MAX, &groups),
        Err(MigrateError::MissingType)
    );
}

#[test]
fn slots_do_not_overlap() {
    let types = vec![ValType::I64, ValType::I32, ValType::V128, ValType::F64, ValType::Ref, ValType::F32];
    let (addresses, next) = assign_addresses(&types, 4);
    for i in 0..types.len() {
        let end = addresses[i] + size_of_slot(types[i]);
        assert_eq!(end, if i + 1 < types.len() { addresses[i + 1] } else { next });
    }
}
