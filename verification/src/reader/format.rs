use crate::parser::writer::record;
use crate::reader::model::{
    first_occurrence, flag_pattern, found_values, marker_at, occurs_at, PointerView, Progress,
    ReaderModel,
};
use crate::reader::pointers::Span;
use crate::reader::PointerType;
use crate::workers::{be_bytes, be_value, lemma_be_roundtrip};
use vstd::prelude::*;

verus! {

/// The number of bytes of the record of `key` and `value`.
pub open spec fn record_len(key: Seq<u8>, value: Seq<u8>) -> int {
    39 + key.len() as int + value.len() as int
}

/// The records of `kvs`, one right after the other.
pub open spec fn records(kvs: Seq<(Seq<u8>, Seq<u8>)>) -> Seq<u8>
    decreases kvs.len(),
{
    if kvs.len() == 0 {
        seq![]
    } else {
        record(kvs[0].0, kvs[0].1) + records(kvs.drop_first())
    }
}

/// Where the record of `key` and `value` lies when it starts at `at`, and
/// where its value lies.
pub open spec fn record_span(at: int, key: Seq<u8>, value: Seq<u8>) -> Span {
    (
        (at as usize, (at + record_len(key, value) - 1) as usize),
        ((at + 36 + key.len()) as usize, (at + 35 + key.len() + value.len()) as usize),
    )
}

impl ReaderModel {
    /// Between records: no part of a record has been read, and the search
    /// starts at the front of the buffer.
    pub open spec fn at_rest(self) -> bool {
        &&& self.buffer_cursor == 0
        &&& !self.flag.0
        &&& !self.key.0
        &&& self.key.1 == 0
        &&& self.key.2 == 0
        &&& !self.value.0
        &&& self.value.1 == 0
        &&& self.value.2 == 0
    }

    /// What the reader keeps of the record of `key` and `value` read at the
    /// front of its buffer, with `rest` left after it: the record is kept
    /// under its key (when the map is being built), its value is collected
    /// when asked for, and the mapped area moves past it.
    pub open spec fn stored(self, key: Seq<u8>, value: Seq<u8>, rest: Seq<u8>) -> ReaderModel {
        let added = if self.find_values && !self.get_values_controll {
            found_values(self.to_find, key, value)
        } else if self.get_values_controll {
            seq![(key, value)]
        } else {
            seq![]
        };
        ReaderModel {
            no_flag_in_buffer: false,
            pointers: if self.build_map {
                self.pointers.insert(key, record_span(self.map_cursor as int, key, value))
            } else {
                self.pointers
            },
            values: self.values + added,
            map_cursor: (self.map_cursor + record_len(key, value)) as usize,
            buffer_cursor: 0,
            buffer: rest,
            flag: (false, 0, 0),
            key: (false, 0, 0, (0, 0), seq![]),
            value: (false, 0, 0, (0, 0)),
            end: (false, 0, 0),
            ..self
        }
    }

    /// The start flag found at the front of the buffer.
    pub open spec fn flag_found(self) -> ReaderModel {
        ReaderModel { no_flag_in_buffer: false, flag: (true, 0usize, 2usize), buffer_cursor: 3usize, ..self }
    }

    /// All parts of the record of `key` and `value` at the front of the
    /// buffer read, before its pointer is built.
    pub open spec fn record_parts(self, key: Seq<u8>, value: Seq<u8>) -> ReaderModel {
        let a = key.len() as int;
        let b = value.len() as int;
        ReaderModel {
            key: (true, 8u8, a as u64, (18usize, (17 + a) as usize), key),
            value: (true, 8u8, b as u64, ((36 + a) as usize, (36 + a + b) as usize)),
            end: (true, (36 + a + b) as usize, (38 + a + b) as usize),
            buffer_cursor: (38 + a + b) as usize,
            ..self.flag_found()
        }
    }

    /// The reader right after the record of `key` and `value` at the front of
    /// its buffer was read, before it is kept.
    pub open spec fn record_read(self, key: Seq<u8>, value: Seq<u8>) -> ReaderModel {
        ReaderModel {
            no_flag_in_buffer: false,
            flag: (false, 0usize, 0usize),
            key: (false, 0u8, 0u64, (0usize, 0usize), seq![]),
            value: (false, 0u8, 0u64, (0usize, 0usize)),
            end: (false, 0usize, 0usize),
            buffer_cursor: (38 + key.len() + value.len()) as usize,
            ..self
        }
    }

    /// The reader after each record of `kvs`, in order, was read and kept.
    pub open spec fn stored_all(self, kvs: Seq<(Seq<u8>, Seq<u8>)>) -> ReaderModel
        decreases kvs.len(),
    {
        if kvs.len() == 0 {
            self
        } else {
            self.stored(kvs[0].0, kvs[0].1, seq![]).stored_all(kvs.drop_first())
        }
    }
}

/// `buf` is the record of `key` and `value` followed by `rest`, and the
/// lengths fit the record's eight-byte fields.
#[verifier::opaque]
spec fn holds_record(buf: Seq<u8>, key: Seq<u8>, value: Seq<u8>, rest: Seq<u8>) -> bool {
    &&& buf == record(key, value) + rest
    &&& key.len() <= u64::MAX
    &&& value.len() <= u64::MAX
}

/// How long a record is.
pub proof fn lemma_record_layout_len(key: Seq<u8>, value: Seq<u8>, rest: Seq<u8>)
    ensures
        record(key, value).len() == record_len(key, value),
        (record(key, value) + rest).len() == record_len(key, value) + rest.len(),
{
}

/// Where each part of a record lies.
pub proof fn lemma_record_layout(key: Seq<u8>, value: Seq<u8>, rest: Seq<u8>)
    requires
        key.len() <= u64::MAX,
        value.len() <= u64::MAX,
    ensures
        ({
            let buf = record(key, value) + rest;
            let a = key.len() as int;
            let b = value.len() as int;
            &&& record(key, value).len() == record_len(key, value)
            &&& buf.len() == record_len(key, value) + rest.len()
            &&& buf.subrange(0, 3) == flag_pattern()
            &&& buf[3] == 8
            &&& marker_at(buf, 4, 2)
            &&& be_value(buf.subrange(7, 15)) == a
            &&& marker_at(buf, 15, 3)
            &&& buf.subrange(18, 18 + a) == key
            &&& marker_at(buf, 18 + a, 4)
            &&& buf[21 + a] == 8
            &&& marker_at(buf, 22 + a, 5)
            &&& be_value(buf.subrange(25 + a, 33 + a)) == b
            &&& marker_at(buf, 33 + a, 6)
            &&& buf.subrange(36 + a, 36 + a + b) == value
            &&& marker_at(buf, 36 + a + b, 7)
            &&& buf.subrange(record_len(key, value), buf.len() as int) == rest
        }),
{
    let a = key.len() as int;
    let b = value.len() as int;
    let kb = be_bytes(a as u64);
    let vb = be_bytes(b as u64);
    lemma_be_roundtrip(a as u64);
    lemma_be_roundtrip(b as u64);
    let r = record(key, value);
    let buf = r + rest;
    let p0 = seq![0u8, 1, 0, 8, 0, 2, 0];
    let p1 = seq![0u8, 3, 0];
    let p2 = seq![0u8, 4, 0, 8, 0, 5, 0];
    let p3 = seq![0u8, 6, 0];
    let p4 = seq![0u8, 7, 0];
    assert(r == p0 + kb + p1 + key + p2 + vb + p3 + value + p4);
    assert(buf.subrange(0, 3) =~= flag_pattern());
    assert(buf.subrange(7, 15) =~= kb);
    assert(buf.subrange(18, 18 + a) =~= key);
    assert(buf.subrange(25 + a, 33 + a) =~= vb);
    assert(buf.subrange(36 + a, 36 + a + b) =~= value);
    assert(buf.subrange(record_len(key, value), buf.len() as int) =~= rest);
}

/// At rest, with a record at the front of the buffer: the start flag is found
/// at once.
pub proof fn lemma_flag_at_front(m: ReaderModel)
    requires
        m.at_rest(),
        m.buffer.len() >= 3,
        m.buffer.subrange(0, 3) == flag_pattern(),
    ensures
        m.flag_step() == Some(m.flag_found()),
{
    assert(occurs_at(m.buffer, flag_pattern(), 0));
    assert(first_occurrence(m.buffer, flag_pattern(), 0) == Some(0int));
}

/// After the start flag of the record of `key` and `value`: the key part is read.
proof fn lemma_key_part(m: ReaderModel, key: Seq<u8>, value: Seq<u8>, rest: Seq<u8>)
    requires
        holds_record(m.buffer, key, value, rest),
        m.flag == (true, 0usize, 2usize),
        m.buffer_cursor == 3,
        !m.key.0,
        m.key.1 == 0,
        m.key.2 == 0,
    ensures
        m.key_step() == (
            Progress::Done,
            ReaderModel {
                key: (
                    true,
                    8u8,
                    key.len() as u64,
                    (18usize, (17 + key.len()) as usize),
                    key,
                ),
                buffer_cursor: (21 + key.len()) as usize,
                ..m
            },
        ),
{
    reveal(holds_record);
    lemma_record_layout(key, value, rest);
}

/// After the key part of the record of `key` and `value`: the value part and
/// the end flag are read.
#[verifier::rlimit(30)]
#[verifier::spinoff_prover]
proof fn lemma_value_part(m: ReaderModel, key: Seq<u8>, value: Seq<u8>, rest: Seq<u8>)
    requires
        holds_record(m.buffer, key, value, rest),
        m.buffer_cursor == 21 + key.len(),
        m.key.1 == 8,
        m.key.2 == key.len(),
        !m.value.0,
        m.value.1 == 0,
        m.value.2 == 0,
    ensures
        ({
            let a = key.len() as int;
            let b = value.len() as int;
            m.value_step() == (
                Progress::Done,
                ReaderModel {
                    value: (true, 8u8, b as u64, ((36 + a) as usize, (36 + a + b) as usize)),
                    end: (true, (36 + a + b) as usize, (38 + a + b) as usize),
                    buffer_cursor: (38 + a + b) as usize,
                    ..m
                },
            )
        }),
{
    reveal(holds_record);
    lemma_record_layout(key, value, rest);
}

/// The key and value parts read, the record is built.
proof fn lemma_parts_done(m1: ReaderModel, m2: ReaderModel, m3: ReaderModel)
    requires
        m1.flag.0,
        !m1.key.0,
        m1.key_step() == (Progress::Done, m2),
        m2.flag.0,
        m2.key.0,
        !m2.value.0,
        m2.value_step() == (Progress::Done, m3),
    ensures
        m1.parts_step() == m3.build_step(),
{
}

/// The record of `key` and `value` at the front of the buffer gives this pointer.
pub open spec fn record_pointer_at(mc: usize, key: Seq<u8>, value: Seq<u8>) -> PointerView {
    let a = key.len() as int;
    let l = record_len(key, value);
    PointerView {
        pointer_type: PointerType::Data,
        start_on_map_cursor: mc,
        boundry: ((mc, (mc + l - 1) as usize), (0usize, (l - 1) as usize)),
        key: (((mc + 18) as usize, (mc + 17 + a) as usize), (18usize, (17 + a) as usize), key),
        value: (
            ((mc + 36 + a) as usize, (mc + 35 + a + value.len()) as usize),
            ((36 + a) as usize, (36 + a + value.len()) as usize),
        ),
    }
}

/// The parts of the record of `key` and `value` right after its start flag
/// are all read.
#[verifier::rlimit(40)]
#[verifier::spinoff_prover]
proof fn lemma_record_parts(m: ReaderModel, key: Seq<u8>, value: Seq<u8>, rest: Seq<u8>)
    requires
        m.at_rest(),
        holds_record(m.buffer, key, value, rest),
        record_len(key, value) <= usize::MAX,
    ensures
        m.flag_found().parts_step() == m.record_parts(key, value).build_step(),
{
    let a = key.len() as int;
    let b = value.len() as int;
    let m1 = m.flag_found();
    lemma_key_part(m1, key, value, rest);
    let m2 = ReaderModel {
        key: (true, 8u8, a as u64, (18usize, (17 + a) as usize), key),
        buffer_cursor: (21 + a) as usize,
        ..m1
    };
    lemma_value_part(m2, key, value, rest);
    lemma_parts_done(m1, m2, m.record_parts(key, value));
}

/// The parts of the record read, its pointer is built and the progress starts over.
#[verifier::rlimit(40)]
#[verifier::spinoff_prover]
proof fn lemma_record_built(m: ReaderModel, key: Seq<u8>, value: Seq<u8>, rest: Seq<u8>)
    requires
        holds_record(m.buffer, key, value, rest),
        m.map_cursor + record_len(key, value) <= usize::MAX,
    ensures
        m.record_parts(key, value).build_step() == (
            Some(record_pointer_at(m.map_cursor, key, value)),
            m.record_read(key, value),
        ),
{
    reveal(holds_record);
    lemma_record_layout_len(key, value, rest);
    let m3 = m.record_parts(key, value);
    assert(m3.record_fits());
    assert(m3.record_pointer() == record_pointer_at(m.map_cursor, key, value));
}

/// At rest, with the record of `key` and `value` at the front of the buffer
/// and its start flag found: its parts are read and its pointer is built.
pub proof fn lemma_parts_of_record(m: ReaderModel, key: Seq<u8>, value: Seq<u8>, rest: Seq<u8>)
    requires
        m.at_rest(),
        m.buffer == record(key, value) + rest,
        m.map_cursor + record_len(key, value) <= usize::MAX,
    ensures
        m.flag_found().parts_step() == (
            Some(record_pointer_at(m.map_cursor, key, value)),
            m.record_read(key, value),
        ),
{
    lemma_record_layout_len(key, value, rest);
    assert(holds_record(m.buffer, key, value, rest)) by {
        reveal(holds_record);
    }
    lemma_record_parts(m, key, value, rest);
    lemma_record_built(m, key, value, rest);
}

/// The record of `key` and `value`, whatever follows it, starts with the start flag.
pub proof fn lemma_record_starts_with_flag(key: Seq<u8>, value: Seq<u8>, rest: Seq<u8>)
    ensures
        (record(key, value) + rest).len() >= 3,
        (record(key, value) + rest).subrange(0, 3) == flag_pattern(),
        (record(key, value) + rest)[0] == 0,
{
    lemma_record_layout_len(key, value, rest);
    let b = record(key, value) + rest;
    assert(b[0] == 0u8 && b[1] == 1u8 && b[2] == 0u8);
    assert(b.subrange(0, 3) =~= flag_pattern());
}

/// At rest, with the record of `key` and `value` at the front of the buffer:
/// one step of reading gives its pointer.
pub proof fn lemma_read_record(m: ReaderModel, key: Seq<u8>, value: Seq<u8>, rest: Seq<u8>)
    requires
        m.at_rest(),
        m.buffer == record(key, value) + rest,
        m.map_cursor + record_len(key, value) <= usize::MAX,
    ensures
        m.read_step() == (Some(record_pointer_at(m.map_cursor, key, value)), m.record_read(key, value)),
{
    lemma_record_starts_with_flag(key, value, rest);
    lemma_flag_at_front(m);
    assert(m.read_step() == m.flag_found().parts_step());
    lemma_parts_of_record(m, key, value, rest);
}

/// Keeping the record read at the front of the buffer gives `stored`.
#[verifier::rlimit(40)]
#[verifier::spinoff_prover]
pub proof fn lemma_keep_record(m: ReaderModel, key: Seq<u8>, value: Seq<u8>, rest: Seq<u8>)
    requires
        m.buffer == record(key, value) + rest,
        m.map_cursor + record_len(key, value) <= usize::MAX,
    ensures
        m.record_read(key, value).take_record(record_pointer_at(m.map_cursor, key, value)) == m.stored(key, value, rest),
        m.stored(key, value, rest).buffer.len() < m.buffer.len(),
{
    lemma_record_layout(key, value, rest);
    let m4 = m.record_read(key, value);
    let t = m4.take_record(record_pointer_at(m.map_cursor, key, value));
    let st = m.stored(key, value, rest);
    assert(t.buffer =~= st.buffer);
    assert(t.pointers =~= st.pointers);
    assert(t.values =~= st.values);
}

/// At rest, with the record of `key` and `value` at the front of the buffer:
/// reading every whole record is keeping this one, then reading the rest.
pub proof fn lemma_map_loop_record(m: ReaderModel, key: Seq<u8>, value: Seq<u8>, rest: Seq<u8>)
    requires
        m.at_rest(),
        m.buffer == record(key, value) + rest,
        m.map_cursor + record_len(key, value) <= usize::MAX,
    ensures
        m.map_loop() == m.stored(key, value, rest).map_loop(),
{
    assert(holds_record(m.buffer, key, value, rest)) by {
        reveal(holds_record);
    }
    lemma_read_record(m, key, value, rest);
    lemma_keep_record(m, key, value, rest);
}

/// At rest with nothing in the buffer, reading changes nothing.
pub proof fn lemma_map_loop_empty(m: ReaderModel)
    requires
        m.at_rest(),
        m.buffer == Seq::<u8>::empty(),
    ensures
        m.map_loop() == m,
        m.end_of_input() == m,
{
    assert(first_occurrence(m.buffer, flag_pattern(), 0) is None);
}

/// After records are kept in turn, the reader is at rest with nothing in its
/// buffer, the mapped area has moved past them all, and the end of the input
/// changes nothing.
proof fn lemma_stored_all(m: ReaderModel, kvs: Seq<(Seq<u8>, Seq<u8>)>)
    requires
        m.at_rest(),
        m.buffer == Seq::<u8>::empty(),
        m.map_cursor + records(kvs).len() <= usize::MAX,
    ensures
        m.stored_all(kvs).at_rest(),
        m.stored_all(kvs).buffer == Seq::<u8>::empty(),
        m.stored_all(kvs).end_of_input() == m.stored_all(kvs),
        m.stored_all(kvs).map_cursor == m.map_cursor + records(kvs).len(),
    decreases kvs.len(),
{
    if kvs.len() == 0 {
        lemma_map_loop_empty(m);
        assert(records(kvs) == Seq::<u8>::empty());
    } else {
        let k0 = kvs[0].0;
        let v0 = kvs[0].1;
        let tail = kvs.drop_first();
        lemma_record_layout_len(k0, v0, records(tail));
        lemma_stored_all(m.stored(k0, v0, seq![]), tail);
    }
}

/// Reading a record from a reader at rest: the record is kept under its key,
/// at the position where the mapped area was, with its value where the writer
/// put it; nothing is left over, and the reader is at rest again.
pub proof fn law_record_round_trip(m: ReaderModel, key: Seq<u8>, value: Seq<u8>)
    requires
        m.at_rest(),
        m.buffer == Seq::<u8>::empty(),
        m.map_cursor + record_len(key, value) <= usize::MAX,
    ensures
        m.appended(record(key, value)).map_loop() == m.stored(key, value, seq![]),
        m.stored(key, value, seq![]).at_rest(),
        m.build_map ==> m.stored(key, value, seq![]).pointers[key] == record_span(
            m.map_cursor as int,
            key,
            value,
        ),
        m.get_values_controll ==> m.stored(key, value, seq![]).values == m.values.push((key, value)),
{
    let e = m.appended(record(key, value));
    assert(e.buffer =~= record(key, value) + seq![]);
    lemma_map_loop_record(e, key, value, seq![]);
    let st = m.stored(key, value, seq![]);
    assert(e.stored(key, value, seq![]) == st);
    lemma_map_loop_empty(st);
    if m.get_values_controll {
        assert(st.values =~= m.values.push((key, value)));
    }
}

/// Reading records written one right after the other, from a reader at rest,
/// keeps each in turn (see `ReaderModel::stored`) and leaves nothing over;
/// the end of the input then changes nothing.
pub proof fn law_records_round_trip(m: ReaderModel, kvs: Seq<(Seq<u8>, Seq<u8>)>)
    requires
        m.at_rest(),
        m.buffer == Seq::<u8>::empty(),
        m.map_cursor + records(kvs).len() <= usize::MAX,
    ensures
        m.appended(records(kvs)).map_loop() == m.stored_all(kvs),
        m.stored_all(kvs).at_rest(),
        m.stored_all(kvs).buffer == Seq::<u8>::empty(),
        m.stored_all(kvs).end_of_input() == m.stored_all(kvs),
        m.stored_all(kvs).map_cursor == m.map_cursor + records(kvs).len(),
    decreases kvs.len(),
{
    lemma_stored_all(m, kvs);
    if kvs.len() == 0 {
        assert(records(kvs) == Seq::<u8>::empty());
        assert(m.appended(records(kvs)) == m);
        lemma_map_loop_empty(m);
    } else {
        let k0 = kvs[0].0;
        let v0 = kvs[0].1;
        let tail = kvs.drop_first();
        let r = records(tail);
        lemma_record_layout_len(k0, v0, r);
        let e = m.appended(records(kvs));
        assert(e.buffer =~= record(k0, v0) + r);
        lemma_map_loop_record(e, k0, v0, r);
        let m1 = m.stored(k0, v0, seq![]);
        assert(e.stored(k0, v0, r) == m1.appended(r)) by {
            assert(m1.appended(r).buffer =~= r);
        }
        lemma_stored_all(m1, tail);
        law_records_round_trip(m1, tail);
    }
}

/// The records of two lists one after the other are the records of the
/// joined list.
proof fn lemma_records_append(a: Seq<(Seq<u8>, Seq<u8>)>, b: Seq<(Seq<u8>, Seq<u8>)>)
    ensures
        records(a + b) == records(a) + records(b),
    decreases a.len(),
{
    if a.len() == 0 {
        assert(a + b =~= b);
        assert(records(a) == Seq::<u8>::empty());
        assert(records(a) + records(b) =~= records(b));
    } else {
        lemma_records_append(a.drop_first(), b);
        assert((a + b).drop_first() =~= a.drop_first() + b);
        assert((a + b)[0] == a[0]);
        assert(records(a + b) =~= records(a) + records(b));
    }
}

/// Keeping the records of two lists in turn is keeping those of the joined list.
proof fn lemma_stored_all_append(
    m: ReaderModel,
    a: Seq<(Seq<u8>, Seq<u8>)>,
    b: Seq<(Seq<u8>, Seq<u8>)>,
)
    ensures
        m.stored_all(a + b) == m.stored_all(a).stored_all(b),
    decreases a.len(),
{
    if a.len() == 0 {
        assert(a + b =~= b);
    } else {
        assert((a + b).drop_first() =~= a.drop_first() + b);
        assert((a + b)[0] == a[0]);
        lemma_stored_all_append(m.stored(a[0].0, a[0].1, seq![]), a.drop_first(), b);
    }
}

/// Reading back-to-back records handed over in two pieces, cut where one
/// record ends and the next begins, gives the same as reading them at once.
pub proof fn law_records_in_pieces(
    m: ReaderModel,
    a: Seq<(Seq<u8>, Seq<u8>)>,
    b: Seq<(Seq<u8>, Seq<u8>)>,
)
    requires
        m.at_rest(),
        m.buffer == Seq::<u8>::empty(),
        m.map_cursor + records(a).len() + records(b).len() <= usize::MAX,
    ensures
        m.appended(records(a)).map_loop().appended(records(b)).map_loop() == m.appended(
            records(a + b),
        ).map_loop(),
{
    lemma_records_append(a, b);
    law_records_round_trip(m, a);
    let ma = m.stored_all(a);
    law_records_round_trip(ma, b);
    law_records_round_trip(m, a + b);
    lemma_stored_all_append(m, a, b);
}

} // verus!
