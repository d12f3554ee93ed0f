use crate::reader::model::Progress;
use crate::reader::{collect_bytes, Reader};
use crate::workers::u64_from_bytes;
use vstd::prelude::*;

verus! {

/// Reads as much of the key part of the record as the buffer holds (see
/// `ReaderModel::key_step`): `Ok` once the key is read, `Err` while bytes are
/// missing or when they break the format (then the buffer is given up).
pub fn init(reader: &mut Reader) -> (r: Result<(), ()>)
    requires
        old(reader).inv(),
    ensures
        final(reader).inv(),
        final(reader).model() == old(reader).model().key_step().1,
        r is Ok <==> old(reader).model().key_step().0 == Progress::Done,
{
    if reader.key.1 == 0 {
        if reader.flag.1 > reader.buffer.len() || reader.buffer.len() - reader.flag.1 < 3 + 1 {
            return Err(());
        }
        if reader.buffer_cursor >= reader.buffer.len() {
            return Err(());
        }
        reader.key.1 = reader.buffer[reader.buffer_cursor];
        reader.buffer_cursor += 1;
    }
    match key_len(reader) {
        Ok(()) => {},
        Err(()) => {
            return Err(());
        },
    }
    key_bytes(reader)
}

/// The marker `[0, 2, 0]` and the big-endian key length (`ReaderModel::key_len_step`).
fn key_len(reader: &mut Reader) -> (r: Result<(), ()>)
    requires
        old(reader).inv(),
    ensures
        final(reader).inv(),
        final(reader).model() == old(reader).model().key_len_step().1,
        r is Ok <==> old(reader).model().key_len_step().0 == Progress::Done,
{
    if reader.key.2 == 0 {
        let k1 = reader.key.1 as usize;
        if reader.flag.1 > reader.buffer.len() || reader.buffer.len() - reader.flag.1 < 3 + 1 + 3
            + k1 {
            return Err(());
        }
        if reader.buffer_cursor > reader.buffer.len() || reader.buffer.len() - reader.buffer_cursor
            < 3 + k1 {
            return Err(());
        }
        let c = reader.buffer_cursor;
        if reader.buffer[c] != 0 || reader.buffer[c + 1] != 2 || reader.buffer[c + 2] != 0 {
            reader.flush();
            return Err(());
        }
        let collect_len_bytes = collect_bytes(&reader.buffer, c + 3, k1);
        match u64_from_bytes(collect_len_bytes) {
            Ok(v) => {
                reader.key.2 = v;
                reader.buffer_cursor = c + 3 + k1;
            },
            Err(_) => {
                reader.flush();
                return Err(());
            },
        }
    }
    Ok(())
}

/// The marker `[0, 3, 0]`, the key and the marker `[0, 4, 0]` (`ReaderModel::key_bytes_step`).
fn key_bytes(reader: &mut Reader) -> (r: Result<(), ()>)
    requires
        old(reader).inv(),
    ensures
        final(reader).inv(),
        final(reader).model() == old(reader).model().key_bytes_step().1,
        r is Ok <==> old(reader).model().key_bytes_step().0 == Progress::Done,
{
    if reader.key.0 == false {
        let len = reader.buffer.len();
        let k1 = reader.key.1 as u128;
        let k2 = reader.key.2 as u128;
        if reader.flag.1 > len || ((len - reader.flag.1) as u128) < 13 + k1 + k2 {
            return Err(());
        }
        if reader.buffer_cursor > len || ((len - reader.buffer_cursor) as u128) < 6 + k2 {
            return Err(());
        }
        let c = reader.buffer_cursor;
        let k2u = reader.key.2 as usize;
        if reader.buffer[c] != 0 || reader.buffer[c + 1] != 3 || reader.buffer[c + 2] != 0 {
            reader.flush();
            return Err(());
        }
        let key_end = c + 3 + k2u;
        if reader.buffer[key_end] != 0 || reader.buffer[key_end + 1] != 4 || reader.buffer[key_end
            + 2] != 0 {
            reader.flush();
            return Err(());
        }
        reader.key.3 = (c + 3, c + 2 + k2u);
        reader.buffer_cursor = key_end + 3;
        reader.key.0 = true;
        reader.key.4 = collect_bytes(&reader.buffer, c + 3, k2u);
    }
    Ok(())
}

} // verus!
