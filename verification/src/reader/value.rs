use crate::reader::model::{lemma_flush_ignores_progress, Progress, ReaderModel};
use crate::reader::{collect_bytes, Reader};
use crate::workers::u64_from_bytes;
use vstd::prelude::*;

verus! {

/// Reads as much of the value part of the record as the buffer holds (see
/// `ReaderModel::value_step`): `Ok` once the value and the end flag are read,
/// `Err` while bytes are missing or when they break the format (then the
/// buffer is given up).
#[verifier::rlimit(100)]
#[verifier::spinoff_prover]
pub fn init(reader: &mut Reader) -> (r: Result<(), ()>)
    requires
        old(reader).inv(),
    ensures
        final(reader).inv(),
        final(reader).model() == old(reader).model().value_step().1,
        r is Ok <==> old(reader).model().value_step().0 == Progress::Done,
{
    let ghost m0 = reader.model();
    let kk1 = reader.key.1 as u128;
    let kk2 = reader.key.2 as u128;
    if reader.value.1 == 0 {
        let len = reader.buffer.len();
        if (len as u128) < 17 + kk1 + kk2 {
            return Err(());
        }
        if reader.buffer_cursor > len || len - reader.buffer_cursor < 4 {
            return Err(());
        }
        let c = reader.buffer_cursor;
        if reader.buffer[c + 1] != 0 || reader.buffer[c + 2] != 5 || reader.buffer[c + 3] != 0 {
            give_up(reader, Ghost(m0));
            return Err(());
        }
        reader.value.1 = reader.buffer[c];
        reader.buffer_cursor += 4;
    }
    if reader.value.2 == 0 {
        let len = reader.buffer.len();
        let v1 = reader.value.1 as usize;
        if (len as u128) < 21 + kk1 + kk2 + (v1 as u128) {
            return Err(());
        }
        if reader.buffer_cursor > len || len - reader.buffer_cursor < v1 {
            return Err(());
        }
        let collect_value_len_buffer = collect_bytes(&reader.buffer, reader.buffer_cursor, v1);
        match u64_from_bytes(collect_value_len_buffer) {
            Ok(v) => {
                reader.value.2 = v;
                reader.buffer_cursor += v1;
            },
            Err(_) => {
                give_up(reader, Ghost(m0));
                return Err(());
            },
        }
    }
    if reader.value.0 == false {
        let len = reader.buffer.len();
        let v1 = reader.value.1 as u128;
        let v2 = reader.value.2 as u128;
        if (len as u128) < 23 + kk1 + kk2 + v1 + v2 {
            return Err(());
        }
        if reader.buffer_cursor > len || ((len - reader.buffer_cursor) as u128) < 6 + v2 {
            return Err(());
        }
        let c = reader.buffer_cursor;
        let v2u = reader.value.2 as usize;
        if reader.buffer[c] != 0 || reader.buffer[c + 1] != 6 || reader.buffer[c + 2] != 0 {
            give_up(reader, Ghost(m0));
            return Err(());
        }
        let at = c + 3 + v2u;
        if reader.buffer[at] != 0 || reader.buffer[at + 1] != 7 || reader.buffer[at + 2] != 0 {
            give_up(reader, Ghost(m0));
            return Err(());
        }
        reader.value.0 = true;
        reader.value.3 = (c + 3, c + 3 + v2u);
        reader.end.0 = true;
        reader.end.1 = c + 3 + v2u;
        reader.end.2 = c + 5 + v2u;
        reader.buffer_cursor = c + 5 + v2u;
    }
    Ok(())
}

/// Gives up the buffer of a reader whose only progress since `m0` is on the
/// record being read: the result is `m0` given up.
fn give_up(reader: &mut Reader, Ghost(m0): Ghost<ReaderModel>)
    requires
        old(reader).inv(),
        old(reader).buffer@.len() > 0,
        old(reader).model() == (ReaderModel {
            flag: old(reader).model().flag,
            key: (
                old(reader).model().key.0,
                old(reader).model().key.1,
                old(reader).model().key.2,
                old(reader).model().key.3,
                m0.key.4,
            ),
            value: old(reader).model().value,
            end: old(reader).model().end,
            buffer_cursor: old(reader).model().buffer_cursor,
            ..m0
        }),
    ensures
        final(reader).inv(),
        final(reader).model() == m0.flush(),
{
    proof {
        lemma_flush_ignores_progress(reader.model(), m0);
    }
    reader.flush();
}

} // verus!
