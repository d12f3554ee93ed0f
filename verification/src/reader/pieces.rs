use crate::parser::writer::record;
use crate::reader::format::{
    lemma_flag_at_front, lemma_map_loop_record, lemma_record_starts_with_flag, lemma_read_record, lemma_record_layout,
    lemma_record_layout_len, record_len,
};
use crate::reader::format::lemma_map_loop_empty;
use crate::reader::model::{flag_pattern, marker_at, Progress, ReaderModel};
use crate::workers::be_value;
use vstd::prelude::*;

verus! {

impl ReaderModel {
    /// After the start flag, the width of the key length read.
    pub open spec fn key_width_read(self) -> ReaderModel {
        let f = self.flag_found();
        ReaderModel { key: (f.key.0, 8u8, f.key.2, f.key.3, f.key.4), buffer_cursor: 4usize, ..f }
    }

    /// The key length of the record of `key` read as well.
    pub open spec fn key_len_read(self, key: Seq<u8>) -> ReaderModel {
        let f = self.flag_found();
        ReaderModel {
            key: (f.key.0, 8u8, key.len() as u64, f.key.3, f.key.4),
            buffer_cursor: 15usize,
            ..f
        }
    }

    /// The key part of the record of `key` read.
    pub open spec fn key_read(self, key: Seq<u8>) -> ReaderModel {
        let a = key.len() as int;
        ReaderModel {
            key: (true, 8u8, a as u64, (18usize, (17 + a) as usize), key),
            buffer_cursor: (21 + a) as usize,
            ..self.flag_found()
        }
    }

    /// The width of the value length read as well.
    pub open spec fn value_width_read(self, key: Seq<u8>) -> ReaderModel {
        let k = self.key_read(key);
        ReaderModel {
            value: (k.value.0, 8u8, k.value.2, k.value.3),
            buffer_cursor: (25 + key.len()) as usize,
            ..k
        }
    }

    /// The value length of the record of `key` and `value` read as well.
    pub open spec fn value_len_read(self, key: Seq<u8>, value: Seq<u8>) -> ReaderModel {
        let k = self.key_read(key);
        ReaderModel {
            value: (k.value.0, 8u8, value.len() as u64, k.value.3),
            buffer_cursor: (33 + key.len()) as usize,
            ..k
        }
    }

    /// Where reading stops when the buffer holds the first `p` bytes of the
    /// record of `key` and `value` (at least its start flag, not all of it).
    pub open spec fn read_so_far(self, key: Seq<u8>, value: Seq<u8>, p: int) -> ReaderModel {
        let a = key.len() as int;
        if p < 4 {
            self.flag_found()
        } else if p < 15 {
            self.key_width_read()
        } else if p < 21 + a {
            self.key_len_read(key)
        } else if p < 25 + a {
            self.key_read(key)
        } else if p < 37 + a {
            self.value_width_read(key)
        } else {
            self.value_len_read(key, value)
        }
    }
}

/// `buf` starts with the whole record of `key` and `value` (when `p` is its
/// length) or is its first `p` bytes, at least the start flag; key and value
/// are not empty.
#[verifier::opaque]
spec fn holds_prefix(buf: Seq<u8>, key: Seq<u8>, value: Seq<u8>, p: int) -> bool {
    &&& key.len() >= 1
    &&& value.len() >= 1
    &&& record_len(key, value) <= usize::MAX
    &&& 3 <= p <= record_len(key, value)
    &&& p <= buf.len()
    &&& p < record_len(key, value) ==> buf.len() == p
    &&& buf.take(p) == record(key, value).take(p)
}

/// The bytes of a prefix are those of the record.
proof fn lemma_prefix_bytes(buf: Seq<u8>, key: Seq<u8>, value: Seq<u8>, p: int)
    requires
        holds_prefix(buf, key, value, p),
    ensures
        ({
            let r = record(key, value);
            let a = key.len() as int;
            let b = value.len() as int;
            &&& p <= buf.len()
            &&& p < r.len() ==> buf.len() == p
            &&& buf.subrange(0, 3) == flag_pattern()
            &&& forall|i: int| 0 <= i < p ==> #[trigger] buf[i] == r[i]
            &&& r.len() == record_len(key, value)
            &&& r.subrange(0, 3) == flag_pattern()
            &&& r[3] == 8
            &&& marker_at(r, 4, 2)
            &&& be_value(r.subrange(7, 15)) == a
            &&& marker_at(r, 15, 3)
            &&& r.subrange(18, 18 + a) == key
            &&& marker_at(r, 18 + a, 4)
            &&& r[21 + a] == 8
            &&& marker_at(r, 22 + a, 5)
            &&& be_value(r.subrange(25 + a, 33 + a)) == b
            &&& marker_at(r, 33 + a, 6)
            &&& marker_at(r, 36 + a + b, 7)
            &&& 1 <= a && 1 <= b && 39 + a + b <= usize::MAX
        }),
{
    reveal(holds_prefix);
    lemma_record_layout(key, value, seq![]);
    assert(record(key, value) + seq![] =~= record(key, value));
    assert forall|i: int| 0 <= i < p implies #[trigger] buf[i] == record(key, value)[i] by {
        assert(buf.take(p)[i] == record(key, value).take(p)[i]);
    }
    assert(buf.subrange(0, 3) =~= record(key, value).subrange(0, 3));
}

/// On a prefix of the record, reading on from where a shorter prefix stopped
/// gives what reading the longer prefix from its start flag gives.
#[verifier::spinoff_prover]
#[verifier::rlimit(40)]
proof fn lemma_resume_prefix(m: ReaderModel, key: Seq<u8>, value: Seq<u8>, p: int, q: int)
    requires
        m.at_rest(),
        holds_prefix(m.buffer, key, value, q),
        3 <= p <= q < record_len(key, value),
    ensures
        m.read_so_far(key, value, p).parts_step() == m.flag_found().parts_step(),
{
    let a = key.len() as int;
    let buf = m.buffer;
    let r = record(key, value);
    lemma_prefix_bytes(buf, key, value, q);
    if p >= 4 {
        let f = m.flag_found();
        let w = m.key_width_read();
        assert(f.key_width_step() == Some(w));
        assert(w.key_width_step() == Some(w));
        if p < 15 {
            assert(w.key_step() == f.key_step());
        } else {
            assert(marker_at(buf, 4, 2));
            assert(buf.subrange(7, 15) =~= r.subrange(7, 15));
            let l = m.key_len_read(key);
            assert(w.key_len_step() == (Progress::Done, l));
            assert(l.key_width_step() == Some(l));
            assert(l.key_len_step() == (Progress::Done, l));
            if p < 21 + a {
                assert(l.key_step() == f.key_step());
            } else {
                lemma_prefix_key(m, key, value, q);
                let kr = m.key_read(key);
                if p >= 25 + a {
                    assert(marker_at(buf, 22 + a, 5));
                    assert(buf[21 + a] == 8);
                    let vw = m.value_width_read(key);
                    if p < 37 + a {
                        assert(vw.value_step() == kr.value_step());
                    } else {
                        assert(buf.subrange(25 + a, 33 + a) =~= r.subrange(25 + a, 33 + a));
                        let vl = m.value_len_read(key, value);
                        assert(vl.value_step() == kr.value_step());
                    }
                }
            }
        }
    }
}

/// With three bytes of the record: the key part waits.
proof fn lemma_prefix_flag(m: ReaderModel, key: Seq<u8>, value: Seq<u8>, p: int)
    requires
        m.at_rest(),
        holds_prefix(m.buffer, key, value, p),
        p < 4,
    ensures
        m.flag_found().parts_step() == (None::<crate::reader::model::PointerView>, m.read_so_far(key, value, p)),
{
    lemma_prefix_bytes(m.buffer, key, value, p);
}

/// With 4 to 14 bytes: the width of the key length is read, the key length waits.
#[verifier::spinoff_prover]
proof fn lemma_prefix_key_width(m: ReaderModel, key: Seq<u8>, value: Seq<u8>, p: int)
    requires
        m.at_rest(),
        holds_prefix(m.buffer, key, value, p),
        4 <= p < 15,
    ensures
        m.flag_found().parts_step() == (None::<crate::reader::model::PointerView>, m.read_so_far(key, value, p)),
{
    lemma_prefix_bytes(m.buffer, key, value, p);
    let f = m.flag_found();
    assert(f.key_width_step() == Some(m.key_width_read()));
    assert(m.key_width_read().key_len_step() == (Progress::Wait, m.key_width_read()));
}

/// With the key length but not all the key: the key bytes wait.
#[verifier::spinoff_prover]
#[verifier::rlimit(30)]
proof fn lemma_prefix_key_len(m: ReaderModel, key: Seq<u8>, value: Seq<u8>, p: int)
    requires
        m.at_rest(),
        holds_prefix(m.buffer, key, value, p),
        15 <= p < 21 + key.len(),
    ensures
        m.flag_found().parts_step() == (None::<crate::reader::model::PointerView>, m.read_so_far(key, value, p)),
{
    lemma_prefix_bytes(m.buffer, key, value, p);
    let buf = m.buffer;
    let r = record(key, value);
    assert(marker_at(buf, 4, 2));
    assert(buf.subrange(7, 15) =~= r.subrange(7, 15));
    let f = m.flag_found();
    let w = m.key_width_read();
    assert(f.key_width_step() == Some(w));
    assert(w.key_len_step() == (Progress::Done, m.key_len_read(key)));
    assert(m.key_len_read(key).key_bytes_step() == (Progress::Wait, m.key_len_read(key)));
}

/// The key part of a prefix that holds all the key and its end marker.
#[verifier::spinoff_prover]
#[verifier::rlimit(30)]
proof fn lemma_prefix_key(m: ReaderModel, key: Seq<u8>, value: Seq<u8>, p: int)
    requires
        m.at_rest(),
        holds_prefix(m.buffer, key, value, p),
        21 + key.len() <= p,
    ensures
        m.flag_found().key_step() == (Progress::Done, m.key_read(key)),
{
    lemma_prefix_bytes(m.buffer, key, value, p);
    let buf = m.buffer;
    let r = record(key, value);
    let a = key.len() as int;
    assert(marker_at(buf, 4, 2));
    assert(buf.subrange(7, 15) =~= r.subrange(7, 15));
    assert(marker_at(buf, 15, 3));
    assert(marker_at(buf, 18 + a, 4));
    assert(buf.subrange(18, 18 + a) =~= r.subrange(18, 18 + a));
    let f = m.flag_found();
    let w = m.key_width_read();
    assert(f.key_width_step() == Some(w));
    assert(w.key_len_step() == (Progress::Done, m.key_len_read(key)));
    assert(m.key_len_read(key).key_bytes_step() == (Progress::Done, m.key_read(key)));
}

/// With the key part but not the width of the value length: the value waits.
#[verifier::spinoff_prover]
proof fn lemma_prefix_key_done(m: ReaderModel, key: Seq<u8>, value: Seq<u8>, p: int)
    requires
        m.at_rest(),
        holds_prefix(m.buffer, key, value, p),
        21 + key.len() <= p < 25 + key.len(),
    ensures
        m.flag_found().parts_step() == (None::<crate::reader::model::PointerView>, m.read_so_far(key, value, p)),
{
    lemma_prefix_bytes(m.buffer, key, value, p);
    lemma_prefix_key(m, key, value, p);
    assert(m.key_read(key).value_step() == (Progress::Wait, m.key_read(key)));
}

/// With the width of the value length but not the length: the value waits.
#[verifier::spinoff_prover]
#[verifier::rlimit(30)]
proof fn lemma_prefix_value_width(m: ReaderModel, key: Seq<u8>, value: Seq<u8>, p: int)
    requires
        m.at_rest(),
        holds_prefix(m.buffer, key, value, p),
        25 + key.len() <= p < 37 + key.len(),
    ensures
        m.flag_found().parts_step() == (None::<crate::reader::model::PointerView>, m.read_so_far(key, value, p)),
{
    lemma_prefix_bytes(m.buffer, key, value, p);
    lemma_prefix_key(m, key, value, p);
    let a = key.len() as int;
    let buf = m.buffer;
    assert(marker_at(buf, 22 + a, 5));
    assert(buf[21 + a] == 8);
    assert(m.key_read(key).value_step() == (Progress::Wait, m.value_width_read(key)));
}

/// With the value length but not all the value: the value waits.
#[verifier::spinoff_prover]
#[verifier::rlimit(30)]
proof fn lemma_prefix_value_len(m: ReaderModel, key: Seq<u8>, value: Seq<u8>, p: int)
    requires
        m.at_rest(),
        holds_prefix(m.buffer, key, value, p),
        37 + key.len() <= p < record_len(key, value),
    ensures
        m.flag_found().parts_step() == (None::<crate::reader::model::PointerView>, m.read_so_far(key, value, p)),
{
    lemma_prefix_bytes(m.buffer, key, value, p);
    lemma_prefix_key(m, key, value, p);
    let a = key.len() as int;
    let buf = m.buffer;
    let r = record(key, value);
    assert(marker_at(buf, 22 + a, 5));
    assert(buf[21 + a] == 8);
    assert(buf.subrange(25 + a, 33 + a) =~= r.subrange(25 + a, 33 + a));
    assert(m.key_read(key).value_step() == (Progress::Wait, m.value_len_read(key, value)));
}

/// On the whole record, the value part read from the key part on.
#[verifier::spinoff_prover]
#[verifier::rlimit(30)]
proof fn lemma_whole_value(m: ReaderModel, key: Seq<u8>, value: Seq<u8>)
    requires
        m.at_rest(),
        holds_prefix(m.buffer, key, value, record_len(key, value)),
    ensures
        m.key_read(key).value_step() == (Progress::Done, m.record_parts(key, value)),
        m.value_width_read(key).value_step() == (Progress::Done, m.record_parts(key, value)),
        m.value_len_read(key, value).value_step() == (Progress::Done, m.record_parts(key, value)),
{
    let p = record_len(key, value);
    lemma_prefix_bytes(m.buffer, key, value, p);
    let a = key.len() as int;
    let b = value.len() as int;
    let buf = m.buffer;
    let r = record(key, value);
    assert(marker_at(buf, 22 + a, 5));
    assert(buf[21 + a] == 8);
    assert(buf.subrange(25 + a, 33 + a) =~= r.subrange(25 + a, 33 + a));
    assert(marker_at(buf, 33 + a, 6));
    assert(marker_at(buf, 36 + a + b, 7));
}

/// On the whole record, the key part read from the width of its length on.
#[verifier::spinoff_prover]
#[verifier::rlimit(30)]
proof fn lemma_whole_key(m: ReaderModel, key: Seq<u8>, value: Seq<u8>)
    requires
        m.at_rest(),
        holds_prefix(m.buffer, key, value, record_len(key, value)),
    ensures
        m.key_width_read().key_step() == (Progress::Done, m.key_read(key)),
        m.key_len_read(key).key_step() == (Progress::Done, m.key_read(key)),
{
    let p = record_len(key, value);
    lemma_prefix_bytes(m.buffer, key, value, p);
    let buf = m.buffer;
    let r = record(key, value);
    let a = key.len() as int;
    assert(marker_at(buf, 4, 2));
    assert(buf.subrange(7, 15) =~= r.subrange(7, 15));
    assert(marker_at(buf, 15, 3));
    assert(marker_at(buf, 18 + a, 4));
    assert(buf.subrange(18, 18 + a) =~= r.subrange(18, 18 + a));
    let w = m.key_width_read();
    assert(w.key_width_step() == Some(w));
    assert(w.key_len_step() == (Progress::Done, m.key_len_read(key)));
    let l = m.key_len_read(key);
    assert(l.key_width_step() == Some(l));
    assert(l.key_len_step() == (Progress::Done, l));
    assert(l.key_bytes_step() == (Progress::Done, m.key_read(key)));
}

/// On the whole record, reading on from where a prefix stopped gives what
/// reading it from its start flag gives.
proof fn lemma_resume(m: ReaderModel, key: Seq<u8>, value: Seq<u8>, p: int)
    requires
        m.at_rest(),
        holds_prefix(m.buffer, key, value, record_len(key, value)),
        3 <= p,
    ensures
        m.read_so_far(key, value, p).parts_step() == m.flag_found().parts_step(),
{
    lemma_whole_value(m, key, value);
    lemma_whole_key(m, key, value);
    lemma_prefix_key(m, key, value, record_len(key, value));
    lemma_prefix_bytes(m.buffer, key, value, record_len(key, value));
    let rp = m.record_parts(key, value);
    assert(m.flag_found().parts_step() == rp.build_step());
    let t = m.read_so_far(key, value, p);
    assert(t.parts_step() == rp.build_step());
}

/// With a prefix of the record of at least its start flag: one step of
/// reading stops where `read_so_far` says.
proof fn lemma_prefix_step(m: ReaderModel, key: Seq<u8>, value: Seq<u8>, p: int)
    requires
        m.at_rest(),
        holds_prefix(m.buffer, key, value, p),
        p < record_len(key, value),
        key.len() >= 1,
    ensures
        m.read_step() == (None::<crate::reader::model::PointerView>, m.read_so_far(key, value, p)),
{
    let a = key.len() as int;
    let ff = m.flag_found();
    let rsf = m.read_so_far(key, value, p);
    assert(ff.parts_step() == (None::<crate::reader::model::PointerView>, rsf)) by {
        if p < 4 {
            lemma_prefix_flag(m, key, value, p);
        } else if p < 15 {
            lemma_prefix_key_width(m, key, value, p);
        } else if p < 21 + a {
            lemma_prefix_key_len(m, key, value, p);
        } else if p < 25 + a {
            lemma_prefix_key_done(m, key, value, p);
        } else if p < 37 + a {
            lemma_prefix_value_width(m, key, value, p);
        } else {
            lemma_prefix_value_len(m, key, value, p);
        }
    }
    lemma_prefix_flag_found(m, key, value, p);
    lemma_read_step_of(m, ff, (None::<crate::reader::model::PointerView>, rsf));
}

/// A prefix of the record starts with the start flag, which is found at once.
proof fn lemma_prefix_flag_found(m: ReaderModel, key: Seq<u8>, value: Seq<u8>, p: int)
    requires
        m.at_rest(),
        holds_prefix(m.buffer, key, value, p),
    ensures
        m.flag_step() == Some(m.flag_found()),
{
    assert(m.buffer.len() >= 3 && m.buffer.subrange(0, 3) == flag_pattern()) by {
        lemma_prefix_starts_with_flag(m.buffer, key, value, p);
    }
    lemma_flag_at_front(m);
}

/// A prefix of the record holds its start flag.
proof fn lemma_prefix_starts_with_flag(buf: Seq<u8>, key: Seq<u8>, value: Seq<u8>, p: int)
    requires
        holds_prefix(buf, key, value, p),
    ensures
        buf.len() >= 3,
        buf.subrange(0, 3) == flag_pattern(),
{
    reveal(holds_prefix);
    lemma_record_starts_with_flag(key, value, seq![]);
    let r = record(key, value);
    assert(r + Seq::<u8>::empty() =~= r);
    assert(buf.subrange(0, 3) =~= r.subrange(0, 3));
}

/// A step of reading is the flag search, then the parts.
proof fn lemma_read_step_of(
    m: ReaderModel,
    m1: ReaderModel,
    out: (Option<crate::reader::model::PointerView>, ReaderModel),
)
    requires
        m.flag_step() == Some(m1),
        m1.parts_step() == out,
    ensures
        m.read_step() == out,
{
}

/// A step of reading that gives no record ends the reading.
proof fn lemma_map_loop_stops(q: ReaderModel, pp: ReaderModel)
    requires
        q.read_step() == (None::<crate::reader::model::PointerView>, pp),
    ensures
        q.map_loop() == pp,
{
}

/// Two readers whose steps agree and whose buffers are as long read alike.
proof fn lemma_same_loop(t: ReaderModel, f: ReaderModel)
    requires
        t.read_step() == f.read_step(),
        t.buffer.len() == f.buffer.len(),
    ensures
        t.map_loop() == f.map_loop(),
{
}

/// A reader that has found the start flag reads on from its parts.
proof fn lemma_flag_kept(t: ReaderModel, f: ReaderModel, f1: ReaderModel)
    requires
        t.flag.0,
        f.flag_step() == Some(f1),
        t.parts_step() == f1.parts_step(),
    ensures
        t.read_step() == f.read_step(),
{
    assert(t.flag_step() == Some(t));
}

/// Where reading stopped on a prefix, with the rest of the record added, is
/// where reading the whole record stands at that point.
proof fn lemma_rest_added(m: ReaderModel, key: Seq<u8>, value: Seq<u8>, p: int)
    requires
        0 <= p <= record(key, value).len(),
    ensures
        m.appended(record(key, value).take(p)).read_so_far(key, value, p).appended(
            record(key, value).skip(p),
        ) == m.appended(record(key, value)).read_so_far(key, value, p),
{
    let r = record(key, value);
    assert(r.take(p) + r.skip(p) =~= r);
    assert(m.appended(r.take(p)).buffer + r.skip(p) =~= m.appended(r).buffer);
}

/// The reader's buffer, after the record was added to an empty one, holds the
/// record (or a prefix of it).
proof fn lemma_holds_after_append(m: ReaderModel, key: Seq<u8>, value: Seq<u8>, p: int)
    requires
        m.buffer == Seq::<u8>::empty(),
        key.len() >= 1,
        value.len() >= 1,
        3 <= p <= record_len(key, value),
        record_len(key, value) <= usize::MAX,
    ensures
        holds_prefix(m.appended(record(key, value).take(p)).buffer, key, value, p),
        holds_prefix(m.appended(record(key, value)).buffer, key, value, record_len(key, value)),
{
    reveal(holds_prefix);
    let r = record(key, value);
    lemma_record_layout_len(key, value, seq![]);
    assert(m.appended(r.take(p)).buffer =~= r.take(p));
    assert(r.take(p).take(p) =~= r.take(p));
    assert(m.appended(r).buffer =~= r.take(record_len(key, value)));
    assert(r.take(record_len(key, value)).take(record_len(key, value)) =~= r.take(record_len(key, value)));
}

/// Reading a record handed over in two pieces, the first holding at least its
/// start flag, gives the same as reading it at once (for a record whose key and
/// value are not empty).
pub proof fn law_record_in_pieces(m: ReaderModel, key: Seq<u8>, value: Seq<u8>, p: int)
    requires
        m.at_rest(),
        m.buffer == Seq::<u8>::empty(),
        key.len() >= 1,
        value.len() >= 1,
        3 <= p <= record_len(key, value),
        m.map_cursor + record_len(key, value) <= usize::MAX,
    ensures
        m.appended(record(key, value).take(p)).map_loop().appended(record(key, value).skip(p)).map_loop()
            == m.appended(record(key, value)).map_loop(),
{
    let r = record(key, value);
    let l = record_len(key, value);
    lemma_record_layout_len(key, value, seq![]);
    lemma_holds_after_append(m, key, value, p);
    if p == l {
        lemma_whole_in_one_piece(m, key, value);
    } else {
        let q = m.appended(r.take(p));
        let f = m.appended(r);
        lemma_prefix_step(q, key, value, p);
        let pp = q.read_so_far(key, value, p);
        lemma_map_loop_stops(q, pp);
        lemma_rest_added(m, key, value, p);
        let t = pp.appended(r.skip(p));
        lemma_resume(f, key, value, p);
        lemma_prefix_flag_found(f, key, value, l);
        lemma_flag_kept(t, f, f.flag_found());
        lemma_same_loop(t, f);
    }
}

/// Reading the first `c` bytes of the record of `key` and `value` (at least
/// its start flag, not all of it), then `more` bytes that go on with the
/// record (and with anything at all once it is whole), gives the same as
/// reading all of it at once.
pub proof fn lemma_cut_in_record(m: ReaderModel, key: Seq<u8>, value: Seq<u8>, c: int, more: Seq<u8>)
    requires
        m.at_rest(),
        m.buffer == Seq::<u8>::empty(),
        key.len() >= 1,
        value.len() >= 1,
        3 <= c < record_len(key, value),
        record_len(key, value) <= usize::MAX,
        ({
            let b = record(key, value).take(c) + more;
            &&& b.len() < record_len(key, value) ==> b == record(key, value).take(b.len() as int)
            &&& b.len() >= record_len(key, value) ==> b.take(record_len(key, value)) == record(key, value)
        }),
    ensures
        m.appended(record(key, value).take(c)).map_loop().appended(more).map_loop() == m.appended(
            record(key, value).take(c) + more,
        ).map_loop(),
{
    let r = record(key, value);
    let l = record_len(key, value);
    lemma_record_layout_len(key, value, seq![]);
    let b = r.take(c) + more;
    lemma_holds_after_append(m, key, value, c);
    let q = m.appended(r.take(c));
    lemma_prefix_step(q, key, value, c);
    let pp = q.read_so_far(key, value, c);
    lemma_map_loop_stops(q, pp);
    let f = m.appended(b);
    assert(f.buffer =~= b);
    let qq = if b.len() < l {
        b.len() as int
    } else {
        l
    };
    assert(holds_prefix(f.buffer, key, value, qq)) by {
        reveal(holds_prefix);
        if b.len() < l {
            assert(b.take(qq) =~= b);
            assert(r.take(qq) =~= b);
        } else {
            assert(r.take(l) =~= r);
        }
    }
    let t = pp.appended(more);
    assert(t == f.read_so_far(key, value, c)) by {
        assert(q.buffer + more =~= b);
    }
    if qq < l {
        lemma_resume_prefix(f, key, value, c, qq);
    } else {
        lemma_resume(f, key, value, c);
    }
    lemma_prefix_flag_found(f, key, value, qq);
    lemma_flag_kept(t, f, f.flag_found());
    lemma_same_loop(t, f);
}

/// `law_record_in_pieces` when the first piece is the whole record.
proof fn lemma_whole_in_one_piece(m: ReaderModel, key: Seq<u8>, value: Seq<u8>)
    requires
        m.at_rest(),
        m.buffer == Seq::<u8>::empty(),
        m.map_cursor + record_len(key, value) <= usize::MAX,
    ensures
        ({
            let r = record(key, value);
            let l = record(key, value).len() as int;
            m.appended(r.take(l)).map_loop().appended(r.skip(l)).map_loop() == m.appended(r).map_loop()
        }),
{
    let r = record(key, value);
    let l = r.len() as int;
    lemma_record_layout_len(key, value, seq![]);
    assert(r.take(l) =~= r);
    assert(r.skip(l) =~= Seq::<u8>::empty());
    let f = m.appended(r);
    assert(f.buffer =~= r + Seq::<u8>::empty());
    lemma_map_loop_record(f, key, value, seq![]);
    let st = f.stored(key, value, seq![]);
    lemma_map_loop_empty(st);
    assert(st.appended(r.skip(l)) == st);
}

} // verus!
