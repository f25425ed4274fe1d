//! The decisions of a smart-rollup host wrapper: what the raw result codes of
//! host calls mean, and the checks made around the calls. The calls
//! themselves are made by the embedding program.
use vstd::prelude::*;

verus! {

/// Errors that the host wrapper reports.
#[derive(PartialEq, Eq, Structural, Clone, Copy, Debug)]
pub enum RuntimeError {
    /// Attempted to read from or delete a key that does not exist.
    PathNotFound,
    /// Attempted to get a subkey at an out-of-bounds index.
    StoreListIndexOutOfBounds,
    /// A host call failed with this (negative) code.
    HostErr(i32),
}

/// What a path in durable storage holds.
#[derive(PartialEq, Eq, Structural, Clone, Copy, Debug)]
pub enum ValueType {
    /// The path has a value, but is not a prefix to further values.
    Value,
    /// The path is a prefix to further values, but has no value.
    Subtree,
    /// The path has a value, and is a prefix to further values.
    ValueWithSubtree,
}

/// Relies on the constants `VALUE_TYPE_NONE`, `VALUE_TYPE_VALUE`,
/// `VALUE_TYPE_SUBTREE`, `VALUE_TYPE_VALUE_WITH_SUBTREE` and
/// `GENERIC_INVALID_ACCESS` of `tezos_smart_rollup_core`, which are 0, 1, 2,
/// 3 and -8.
#[verifier::external_body]
fn store_has_codes() -> (r: (i32, i32, i32, i32, i32))
    ensures
        r == (0i32, 1i32, 2i32, 3i32, -8i32),
{
    (
        tezos_smart_rollup_core::VALUE_TYPE_NONE,
        tezos_smart_rollup_core::VALUE_TYPE_VALUE,
        tezos_smart_rollup_core::VALUE_TYPE_SUBTREE,
        tezos_smart_rollup_core::VALUE_TYPE_VALUE_WITH_SUBTREE,
        tezos_smart_rollup_core::GENERIC_INVALID_ACCESS,
    )
}

/// Relies on the constant `MAX_FILE_CHUNK_SIZE` of `tezos_smart_rollup_core`,
/// which is 2048: the most bytes one storage read returns.
#[verifier::external_body]
fn max_file_chunk_size() -> (r: usize)
    ensures
        r == 2048,
{
    tezos_smart_rollup_core::MAX_FILE_CHUNK_SIZE
}

/// The meaning of a host result code: a count when it is not negative, a
/// host error otherwise.
pub open spec fn code_result(code: i32) -> Result<usize, RuntimeError> {
    if code >= 0 {
        Ok(code as usize)
    } else {
        Err(RuntimeError::HostErr(code))
    }
}

/// Reads a host result code.
pub fn wrap_code(code: i32) -> (r: Result<usize, RuntimeError>)
    ensures
        r == code_result(code),
{
    if code >= 0 {
        Ok(code as usize)
    } else {
        Err(RuntimeError::HostErr(code))
    }
}

/// The meaning of the result of `store_has`.
pub open spec fn store_has_spec(code: i32) -> Result<Option<ValueType>, RuntimeError> {
    if code < 0 {
        Err(RuntimeError::HostErr(code))
    } else if code == 0 {
        Ok(None)
    } else if code == 1 {
        Ok(Some(ValueType::Value))
    } else if code == 2 {
        Ok(Some(ValueType::Subtree))
    } else if code == 3 {
        Ok(Some(ValueType::ValueWithSubtree))
    } else {
        Err(RuntimeError::HostErr(-8i32))
    }
}

/// Reads the result of `store_has`: whether the path holds nothing, a
/// value, a subtree or both; an unknown code is an invalid access.
pub fn store_has_result(code: i32) -> (r: Result<Option<ValueType>, RuntimeError>)
    ensures
        r == store_has_spec(code),
{
    let (none, value, subtree, both, invalid) = store_has_codes();
    let n = match wrap_code(code) {
        Ok(n) => n,
        Err(e) => {
            return Err(e);
        },
    };
    let c = n as i32;
    if c == none {
        Ok(None)
    } else if c == value {
        Ok(Some(ValueType::Value))
    } else if c == subtree {
        Ok(Some(ValueType::Subtree))
    } else if c == both {
        Ok(Some(ValueType::ValueWithSubtree))
    } else {
        Err(RuntimeError::HostErr(invalid))
    }
}

/// The path holds a value (with or without a subtree); anything else,
/// a failed `store_has` included, is `PathNotFound`.
pub fn check_path_has_value(has: Result<Option<ValueType>, RuntimeError>) -> (r: Result<(), RuntimeError>)
    ensures
        r is Ok <==> (has == Ok::<Option<ValueType>, RuntimeError>(Some(ValueType::Value)) || has
            == Ok::<Option<ValueType>, RuntimeError>(Some(ValueType::ValueWithSubtree))),
        r is Err ==> r == Err::<(), RuntimeError>(RuntimeError::PathNotFound),
{
    match has {
        Ok(Some(ValueType::Value)) => Ok(()),
        Ok(Some(ValueType::ValueWithSubtree)) => Ok(()),
        _ => Err(RuntimeError::PathNotFound),
    }
}

/// The path holds something; anything else, a failed `store_has`
/// included, is `PathNotFound`.
pub fn check_path_exists(has: Result<Option<ValueType>, RuntimeError>) -> (r: Result<(), RuntimeError>)
    ensures
        r is Ok <==> (has is Ok && has->Ok_0 is Some),
        r is Err ==> r == Err::<(), RuntimeError>(RuntimeError::PathNotFound),
{
    match has {
        Ok(Some(_)) => Ok(()),
        _ => Err(RuntimeError::PathNotFound),
    }
}

/// Reads the result of `store_list_size`: a count, or a host error for a
/// negative one (an error code too large for 32 bits is an invalid access).
pub fn count_subkeys_result(count: i64) -> (r: Result<i64, RuntimeError>)
    ensures
        count >= 0 ==> r == Ok::<i64, RuntimeError>(count),
        i32::MIN <= count < 0 ==> r == Err::<i64, RuntimeError>(RuntimeError::HostErr(count as i32)),
        count < i32::MIN ==> r == Err::<i64, RuntimeError>(RuntimeError::HostErr(-8i32)),
{
    if count >= 0 {
        Ok(count)
    } else if count >= i32::MIN as i64 {
        Err(RuntimeError::HostErr(count as i32))
    } else {
        let (_, _, _, _, invalid) = store_has_codes();
        Err(RuntimeError::HostErr(invalid))
    }
}

/// A subkey index is in bounds when it is below the number of subkeys.
pub fn check_subkey_index(index: i64, size: i64) -> (r: Result<(), RuntimeError>)
    ensures
        r is Ok <==> 0 <= index < size,
        r is Err ==> r == Err::<(), RuntimeError>(RuntimeError::StoreListIndexOutOfBounds),
{
    if 0 <= index && index < size {
        Ok(())
    } else {
        Err(RuntimeError::StoreListIndexOutOfBounds)
    }
}

/// How many bytes one storage read asks for: `max_bytes`, but at most one
/// file chunk.
pub fn read_chunk_len(max_bytes: usize) -> (r: usize)
    ensures
        r == if max_bytes <= 2048 { max_bytes } else { 2048 },
{
    let chunk = max_file_chunk_size();
    if max_bytes <= chunk {
        max_bytes
    } else {
        chunk
    }
}

/// Reads the result of `read_input`: `None` when no message was read, else
/// the number of bytes read.
pub fn read_input_result(code: i32) -> (r: Result<Option<usize>, RuntimeError>)
    ensures
        code < 0 ==> r == Err::<Option<usize>, RuntimeError>(RuntimeError::HostErr(code)),
        code == 0 ==> r == Ok::<Option<usize>, RuntimeError>(None),
        code > 0 ==> r == Ok::<Option<usize>, RuntimeError>(Some(code as usize)),
{
    match wrap_code(code) {
        Ok(0) => Ok(None),
        Ok(n) => Ok(Some(n)),
        Err(e) => Err(e),
    }
}

/// The big-endian number in four bytes.
pub open spec fn be_u32(a: u8, b: u8, c: u8, d: u8) -> int {
    a * 0x100_0000 + b * 0x1_0000 + c * 0x100 + d
}

/// Rollup metadata: the rollup's 20-byte address and the level at which it
/// was originated.
#[derive(PartialEq, Eq, Debug)]
pub struct RollupMetadata {
    pub address: Vec<u8>,
    pub origination_level: u32,
}

/// Splits the 24 bytes that `reveal_metadata` writes: the address, then the
/// origination level in big-endian order.
pub fn decode_metadata(bytes: &Vec<u8>) -> (r: RollupMetadata)
    requires
        bytes@.len() == 24,
    ensures
        r.address@ == bytes@.subrange(0, 20),
        r.origination_level == be_u32(bytes@[20], bytes@[21], bytes@[22], bytes@[23]),
{
    let mut address: Vec<u8> = Vec::new();
    let mut j: usize = 0;
    while j < 20
        invariant
            0 <= j <= 20,
            bytes@.len() == 24,
            address@ == bytes@.subrange(0, j as int),
        decreases 20 - j,
    {
        address.push(bytes[j]);
        j = j + 1;
        assert(address@ =~= bytes@.subrange(0, j as int));
    }
    let level = (bytes[20] as u32) * 0x100_0000 + (bytes[21] as u32) * 0x1_0000 + (bytes[22] as u32)
        * 0x100 + (bytes[23] as u32);
    RollupMetadata { address, origination_level: level }
}

} // verus!
