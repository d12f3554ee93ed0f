use crate::workers::{be_bytes, u64_to_bytes};
use vstd::prelude::*;

verus! {

/// The encoding of one record: start flag, the byte width of the key length,
/// the key length, the key, the same for the value, and an end flag, each part
/// introduced by a three-byte marker `[0, n, 0]`.
pub open spec fn record(key: Seq<u8>, value: Seq<u8>) -> Seq<u8> {
    seq![0u8, 1, 0, 8, 0, 2, 0] + be_bytes(key.len() as u64) + seq![0u8, 3, 0] + key + seq![
        0u8,
        4,
        0,
        8,
        0,
        5,
        0,
    ] + be_bytes(value.len() as u64) + seq![0u8, 6, 0] + value + seq![0u8, 7, 0]
}

/// Encodes `key` and `value` as one record.
pub fn init(key: Vec<u8>, value: Vec<u8>) -> (r: Result<Vec<u8>, &'static str>)
    ensures
        r matches Ok(v) && v@ == record(key@, value@),
{
    let mut collect: Vec<u8> = vec![0, 1, 0];
    let mut key = key;
    let mut value = value;
    let ghost key0 = key@;
    let ghost value0 = value@;

    match u64_to_bytes(key.len() as u64) {
        Ok(v) => {
            collect.push(v.len() as u8);
            collect.append(&mut vec![0, 2, 0]);
            collect.append(&mut v.clone());
            collect.append(&mut vec![0, 3, 0]);
            collect.append(&mut key);
            collect.append(&mut vec![0, 4, 0]);
        },
        Err(_) => {
            return Err("failed-parse-key-len");
        },
    }

    match u64_to_bytes(value.len() as u64) {
        Ok(mut v) => {
            collect.push(v.len() as u8);
            collect.append(&mut vec![0, 5, 0]);
            collect.append(&mut v);
            collect.append(&mut vec![0, 6, 0]);
            collect.append(&mut value);
            collect.append(&mut vec![0, 7, 0]);
        },
        Err(_) => {
            return Err("failed-parse-key-len");
        },
    }
    assert(collect@ =~= record(key0, value0));
    Ok(collect)
}

} // verus!
