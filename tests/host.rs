use mir::host::{
    check_path_exists, check_path_has_value, check_subkey_index, count_subkeys_result, decode_metadata,
    read_chunk_len, read_input_result, store_has_result, wrap_code, RuntimeError, ValueType,
};

#[test]
fn store_has_codes_are_read() {
    assert_eq!(store_has_result(tezos_smart_rollup_core::VALUE_TYPE_NONE), Ok(None));
    assert_eq!(store_has_result(tezos_smart_rollup_core::VALUE_TYPE_VALUE), Ok(Some(ValueType::Value)));
    assert_eq!(store_has_result(2), Ok(Some(ValueType::Subtree)));
    assert_eq!(store_has_result(3), Ok(Some(ValueType::ValueWithSubtree)));
    assert_eq!(store_has_result(4), Err(RuntimeError::HostErr(tezos_smart_rollup_core::GENERIC_INVALID_ACCESS)));
    assert_eq!(store_has_result(-1), Err(RuntimeError::HostErr(-1)));
}

#[test]
fn path_checks() {
    assert_eq!(check_path_has_value(Ok(Some(ValueType::Value))), Ok(()));
    assert_eq!(check_path_has_value(Ok(Some(ValueType::ValueWithSubtree))), Ok(()));
    assert_eq!(check_path_has_value(Ok(Some(ValueType::Subtree))), Err(RuntimeError::PathNotFound));
    assert_eq!(check_path_has_value(Ok(None)), Err(RuntimeError::PathNotFound));
    assert_eq!(check_path_exists(Ok(Some(ValueType::Subtree))), Ok(()));
    assert_eq!(check_path_exists(Ok(None)), Err(RuntimeError::PathNotFound));
    assert_eq!(check_path_exists(Err(RuntimeError::HostErr(-3))), Err(RuntimeError::PathNotFound));
}

#[test]
fn subkeys() {
    assert_eq!(count_subkeys_result(14), Ok(14));
    assert_eq!(count_subkeys_result(-4), Err(RuntimeError::HostErr(-4)));
    assert_eq!(count_subkeys_result(i64::MIN), Err(RuntimeError::HostErr(-8)));
    assert_eq!(check_subkey_index(0, 14), Ok(()));
    assert_eq!(check_subkey_index(13, 14), Ok(()));
    assert_eq!(check_subkey_index(14, 14), Err(RuntimeError::StoreListIndexOutOfBounds));
    assert_eq!(check_subkey_index(-1, 14), Err(RuntimeError::StoreListIndexOutOfBounds));
}

#[test]
fn codes_and_sizes() {
    assert_eq!(wrap_code(12), Ok(12));
    assert_eq!(wrap_code(-7), Err(RuntimeError::HostErr(-7)));
    assert_eq!(read_chunk_len(80), 80);
    assert_eq!(read_chunk_len(5000), tezos_smart_rollup_core::MAX_FILE_CHUNK_SIZE);
    assert_eq!(read_input_result(0), Ok(None));
    assert_eq!(read_input_result(4096), Ok(Some(4096)));
    assert_eq!(read_input_result(-7), Err(RuntimeError::HostErr(-7)));
}

#[test]
fn metadata_is_split() {
    let bytes = vec![
        b'M', 165, 28, b']', 231, 161, 205, 212, 148, 193, b'[', b'S', 129, b'^', 31, 170, b'L', 26, 150, 202,
        0, 0, 1, 42,
    ];
    let m = decode_metadata(&bytes);
    assert_eq!(m.address, bytes[..20].to_vec());
    assert_eq!(m.origination_level, 298);
}
