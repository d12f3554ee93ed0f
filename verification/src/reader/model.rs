use crate::reader::pointers::Span;
use crate::workers::be_value;
use crate::reader::space::{disjoint, empties_wf, pointers_wf, region_ok, Region};
use crate::reader::{Pointer, PointerType, Reader, ReaderFunc};
use vstd::prelude::*;

verus! {

/// A reader as plain values: what every field holds.
pub struct ReaderModel {
    pub no_flag_in_buffer: bool,
    pub empty_map: Map<usize, Region>,
    pub empty_start: Map<usize, usize>,
    pub empty_end: Map<usize, usize>,
    pub empty_index: usize,
    pub pointers: Map<Seq<u8>, Span>,
    pub corrupt: Seq<(usize, (usize, usize))>,
    pub build_map: bool,
    pub to_find: Seq<Seq<u8>>,
    pub find_values: bool,
    pub get_values_controll: bool,
    pub values: Seq<(Seq<u8>, Seq<u8>)>,
    pub map_cursor: usize,
    pub buffer_cursor: usize,
    pub buffer: Seq<u8>,
    pub func: ReaderFunc,
    pub flag: (bool, usize, usize),
    pub key: (bool, u8, u64, (usize, usize), Seq<u8>),
    pub value: (bool, u8, u64, (usize, usize)),
    pub end: (bool, usize, usize),
}

/// The maximal runs of zero and of non-zero bytes of `s`, in order, as
/// `(is_zero, first, last)` with inclusive indexes into `s`.
pub open spec fn runs(s: Seq<u8>) -> Seq<(bool, int, int)>
    decreases s.len(),
{
    if s.len() == 0 {
        seq![]
    } else {
        let r = runs(s.drop_last());
        let i = s.len() - 1;
        let z = s[i] == 0;
        if r.len() > 0 && r.last().0 == z {
            r.update(r.len() - 1, (z, r.last().1, i))
        } else {
            r.push((z, i, i))
        }
    }
}

/// Run `i` ends right before run `i + 1` starts, and they are of different kinds.
pub open spec fn runs_adjacent(rs: Seq<(bool, int, int)>, i: int) -> bool {
    rs[i].2 + 1 == rs[i + 1].1 && rs[i].0 != rs[i + 1].0
}

/// `rs` are runs that cover `0..n` one after the other, alternating between
/// zero and non-zero.
pub open spec fn runs_wf(rs: Seq<(bool, int, int)>, n: int) -> bool {
    &&& (rs.len() == 0 <==> n == 0)
    &&& rs.len() > 0 ==> rs[0].1 == 0 && rs.last().2 == n - 1
    &&& forall|i: int| 0 <= i < rs.len() ==> 0 <= #[trigger] rs[i].1 <= rs[i].2 < n
    &&& forall|i: int|
        0 <= i < rs.len() - 1 ==> #[trigger] runs_adjacent(rs, i)
}

/// The runs of a byte string cover it in order, and each run is all zero
/// bytes or all non-zero bytes as it says.
#[verifier::rlimit(40)]
pub proof fn lemma_runs_wf(s: Seq<u8>)
    ensures
        runs_wf(runs(s), s.len() as int),
        runs(s).len() <= s.len(),
        forall|i: int, p: int|
            #![trigger runs(s)[i], s[p]]
            0 <= i < runs(s).len() && runs(s)[i].1 <= p <= runs(s)[i].2 ==> (s[p] == 0)
                == runs(s)[i].0,
    decreases s.len(),
{
    if s.len() > 0 {
        let t = s.drop_last();
        lemma_runs_wf(t);
        let r = runs(t);
        let rs = runs(s);
        let i0 = s.len() - 1;
        let z = s[i0] == 0;
        assert forall|p: int| 0 <= p < i0 implies s[p] == t[p] by {}
        if r.len() > 0 && r.last().0 == z {
            assert(rs == r.update(r.len() - 1, (z, r.last().1, i0)));
            assert(r[r.len() - 1].1 <= r[r.len() - 1].2);
            assert forall|i: int| 0 <= i < rs.len() implies 0 <= #[trigger] rs[i].1 <= rs[i].2 < s.len() by {
                assert(0 <= r[i].1 <= r[i].2 < t.len());
            }
            assert forall|i: int| 0 <= i < rs.len() - 1 implies #[trigger] runs_adjacent(rs, i) by {
                assert(runs_adjacent(r, i));
            }
            assert forall|i: int, p: int|
                #![trigger rs[i], s[p]]
                0 <= i < rs.len() && rs[i].1 <= p <= rs[i].2 implies (s[p] == 0) == rs[i].0 by {
                if p < i0 {
                    assert(s[p] == t[p]);
                    if i < rs.len() - 1 {
                        assert(rs[i] == r[i]);
                    } else {
                        assert(r[i].2 == i0 - 1);
                    }
                    assert(r[i].1 <= p <= r[i].2);
                    assert((t[p] == 0) == r[i].0);
                }
            }
        } else {
            assert(rs == r.push((z, i0, i0)));
            if r.len() > 0 {
                assert(r[r.len() - 1].2 == i0 - 1);
            }
            assert forall|i: int| 0 <= i < rs.len() implies 0 <= #[trigger] rs[i].1 <= rs[i].2 < s.len() by {
                if i < r.len() {
                    assert(0 <= r[i].1 <= r[i].2 < t.len());
                }
            }
            assert forall|i: int| 0 <= i < rs.len() - 1 implies #[trigger] runs_adjacent(rs, i) by {
                if i < r.len() - 1 {
                    assert(runs_adjacent(r, i));
                }
            }
            assert forall|i: int, p: int|
                #![trigger rs[i], s[p]]
                0 <= i < rs.len() && rs[i].1 <= p <= rs[i].2 implies (s[p] == 0) == rs[i].0 by {
                if i < r.len() {
                    assert(rs[i] == r[i]);
                    assert(0 <= r[i].1 <= r[i].2 < t.len());
                    assert(s[p] == t[p]);
                    assert((t[p] == 0) == r[i].0);
                }
            }
        }
    }
}

/// How far a step of reading a record got.
pub enum Progress {
    /// The buffer does not hold enough bytes yet; the progress so far is kept.
    Wait,
    /// The bytes do not follow the format; the buffer was given up.
    Bad,
    /// This part of the record was read.
    Done,
}

/// `buf[at..at + 3]` is the marker `[0, n, 0]`.
pub open spec fn marker_at(buf: Seq<u8>, at: int, n: u8) -> bool {
    &&& 0 <= at
    &&& at + 3 <= buf.len()
    &&& buf[at] == 0
    &&& buf[at + 1] == n
    &&& buf[at + 2] == 0
}

/// A pointer as plain values.
pub struct PointerView {
    pub pointer_type: PointerType,
    pub start_on_map_cursor: usize,
    pub boundry: ((usize, usize), (usize, usize)),
    pub key: ((usize, usize), (usize, usize), Seq<u8>),
    pub value: ((usize, usize), (usize, usize)),
}

impl View for Pointer {
    type V = PointerView;

    open spec fn view(&self) -> PointerView {
        PointerView {
            pointer_type: self.pointer_type,
            start_on_map_cursor: self.start_on_map_cursor,
            boundry: self.boundry,
            key: (self.key.0, self.key.1, self.key.2@),
            value: self.value,
        }
    }
}

/// `pat` occurs in `s` at position `p`.
pub open spec fn occurs_at(s: Seq<u8>, pat: Seq<u8>, p: int) -> bool {
    0 <= p && p + pat.len() <= s.len() && s.subrange(p, p + pat.len()) == pat
}

/// The first position at or after `from` where `pat` occurs in `s`.
pub open spec fn first_occurrence(s: Seq<u8>, pat: Seq<u8>, from: int) -> Option<int>
    decreases s.len() + 1 - from,
{
    if from < 0 || from > s.len() || from + pat.len() > s.len() {
        None
    } else if occurs_at(s, pat, from) {
        Some(from)
    } else {
        first_occurrence(s, pat, from + 1)
    }
}

/// The first byte of `pat` does not come back before its last position, so a
/// scan can restart at the byte that broke a partial match.
pub open spec fn restartable(pat: Seq<u8>) -> bool {
    forall|j: int| 0 < j < pat.len() - 1 ==> #[trigger] pat[j] != pat[0]
}

/// `first_occurrence` is the least position at or after `from` where `pat` occurs.
pub proof fn lemma_first_occurrence(s: Seq<u8>, pat: Seq<u8>, from: int)
    requires
        from >= 0,
    ensures
        match first_occurrence(s, pat, from) {
            Some(q) => from <= q && occurs_at(s, pat, q) && forall|p: int|
                from <= p < q ==> !#[trigger] occurs_at(s, pat, p),
            None => forall|p: int| from <= p ==> !#[trigger] occurs_at(s, pat, p),
        },
    decreases s.len() + 1 - from,
{
    if from > s.len() || from + pat.len() > s.len() {
    } else if occurs_at(s, pat, from) {
    } else {
        lemma_first_occurrence(s, pat, from + 1);
    }
}

/// How many zero bytes `s` has in a row from position `i` on.
pub open spec fn zeros_from(s: Seq<u8>, i: int) -> int
    decreases s.len() - i,
{
    if i < 0 || i >= s.len() || s[i] != 0 {
        0
    } else {
        1 + zeros_from(s, i + 1)
    }
}

/// The start flag of a record.
pub open spec fn flag_pattern() -> Seq<u8> {
    seq![0u8, 1, 0]
}

/// One entry per time `key` is among `to_find`, each pairing it with `value`.
pub open spec fn found_values(to_find: Seq<Seq<u8>>, key: Seq<u8>, value: Seq<u8>) -> Seq<
    (Seq<u8>, Seq<u8>),
>
    decreases to_find.len(),
{
    if to_find.len() == 0 {
        seq![]
    } else {
        found_values(to_find.drop_last(), key, value) + if to_find.last() == key {
            seq![(key, value)]
        } else {
            seq![]
        }
    }
}

impl ReaderModel {
    /// The reader with `bytes` added at the end of its buffer.
    pub open spec fn appended(self, bytes: Seq<u8>) -> ReaderModel {
        ReaderModel { buffer: self.buffer + bytes, ..self }
    }

    /// Looks for the start flag (unless one was found already), classifying
    /// the bytes before it; `None` when there is none yet (the search will
    /// resume near the end of the buffer).
    pub open spec fn flag_step(self) -> Option<ReaderModel> {
        if self.flag.0 {
            Some(self)
        } else {
            match first_occurrence(self.buffer, flag_pattern(), self.buffer_cursor as int) {
                Some(l) => {
                    let m = ReaderModel { no_flag_in_buffer: false, ..self }.consume(l);
                    Some(
                        ReaderModel {
                            flag: (true, m.buffer_cursor, (m.buffer_cursor + 2) as usize),
                            buffer_cursor: 3,
                            ..m
                        },
                    )
                },
                None => None,
            }
        }
    }

    /// Where the flag search resumes when no flag was found.
    pub open spec fn flag_missed(self) -> ReaderModel {
        let len = self.buffer.len() as int;
        ReaderModel {
            buffer_cursor: (if len > 6 {
                len - 5
            } else {
                len
            }) as usize,
            ..self
        }
    }

    /// The positions of the record just read fit the buffer and a `usize`.
    pub open spec fn record_fits(self) -> bool {
        let mc = self.map_cursor as int;
        &&& self.flag.1 <= self.end.2 < self.buffer.len()
        &&& mc + self.end.2 - self.flag.1 + 1 <= usize::MAX
        &&& mc + self.key.3.0 <= usize::MAX
        &&& mc + self.key.3.1 <= usize::MAX
        &&& self.value.3.0 <= self.value.3.1 <= self.end.2 + 1
        &&& 1 <= mc + self.value.3.1 <= usize::MAX
    }

    /// The pointer to the record just read.
    pub open spec fn record_pointer(self) -> PointerView {
        let mc = self.map_cursor as int;
        let len = self.end.2 - self.flag.1 + 1;
        PointerView {
            pointer_type: PointerType::Data,
            start_on_map_cursor: self.map_cursor,
            boundry: ((self.map_cursor, (mc + len - 1) as usize), (self.flag.1, self.end.2)),
            key: (
                ((mc + self.key.3.0) as usize, (mc + self.key.3.1) as usize),
                (self.key.3.0, self.key.3.1),
                self.key.4,
            ),
            value: (
                ((mc + self.value.3.0) as usize, (mc + self.value.3.1 - 1) as usize),
                (self.value.3.0, self.value.3.1),
            ),
        }
    }

    /// One step of reading: find the start flag, read the key part, read the
    /// value part; when the whole record is there, give its pointer and start
    /// over on the next record.
    pub open spec fn read_step(self) -> (Option<PointerView>, ReaderModel) {
        match self.flag_step() {
            None => (None, self.flag_missed()),
            Some(m1) => m1.parts_step(),
        }
    }

    /// After the start flag: read the key part, read the value part, and give
    /// the pointer when the whole record is there.
    pub open spec fn parts_step(self) -> (Option<PointerView>, ReaderModel) {
        let (kp, m2) = if self.flag.0 && !self.key.0 {
            self.key_step()
        } else {
            (Progress::Done, self)
        };
        if kp != Progress::Done {
            (None, m2)
        } else {
            let (vp, m3) = if m2.flag.0 && m2.key.0 && !m2.value.0 {
                m2.value_step()
            } else {
                (Progress::Done, m2)
            };
            if vp != Progress::Done {
                (None, m3)
            } else {
                m3.build_step()
            }
        }
    }

    /// The pointer to the record whose parts were all read, when they fit;
    /// the progress then starts over (the key bytes move into the pointer).
    pub open spec fn build_step(self) -> (Option<PointerView>, ReaderModel) {
        if self.flag.0 && self.key.0 && self.value.0 && self.end.0 && self.record_fits() {
            (
                Some(self.record_pointer()),
                ReaderModel { key: (self.key.0, self.key.1, self.key.2, self.key.3, seq![]), ..self }.reset(),
            )
        } else {
            (None, self)
        }
    }

    /// What the reader keeps of a record it has read: the buffer drops the
    /// record, the mapped area moves past it, its value is collected when asked
    /// for, and its span is kept under its key when the map is being built.
    pub open spec fn take_record(self, p: PointerView) -> ReaderModel {
        let e = p.boundry.1.1 as int;
        let value = self.buffer.subrange(p.value.1.0 as int, p.value.1.1 as int);
        let added = if self.find_values && !self.get_values_controll {
            found_values(self.to_find, p.key.2, value)
        } else if self.get_values_controll {
            seq![(p.key.2, value)]
        } else {
            seq![]
        };
        ReaderModel {
            buffer: self.buffer.subrange(e + 1, self.buffer.len() as int),
            buffer_cursor: 0,
            map_cursor: (self.map_cursor + (p.boundry.0.1 - p.boundry.0.0 + 1)) as usize,
            values: self.values + added,
            pointers: if self.build_map && p.pointer_type == PointerType::Data {
                self.pointers.insert(p.key.2, (p.boundry.0, p.value.0))
            } else {
                self.pointers
            },
            ..self
        }
    }

    /// Reads and keeps records until no whole record is left in the buffer.
    pub open spec fn map_loop(self) -> ReaderModel
        decreases self.buffer.len(),
    {
        let (p, m1) = self.read_step();
        match p {
            Some(pv) => {
                let m2 = m1.take_record(pv);
                if m2.buffer.len() < self.buffer.len() {
                    m2.map_loop()
                } else {
                    m2
                }
            },
            None => m1,
        }
    }

    /// The end of the input: the records left are read, and whatever bytes
    /// remain are classified as free or corrupt space.
    pub open spec fn end_of_input(self) -> ReaderModel {
        if self.buffer.len() == 0 {
            self
        } else {
            let l = self.map_loop();
            if l.buffer.len() > 0 {
                l.consume(l.buffer.len() as int)
            } else {
                l
            }
        }
    }

    /// Reads as much of the key part of the record as the buffer allows: the
    /// width of the key length (after the start flag), the marker `[0, 2, 0]`
    /// and the big-endian key length, then the marker `[0, 3, 0]`, the key and
    /// the marker `[0, 4, 0]`. Parts already read are skipped.
    pub open spec fn key_step(self) -> (Progress, ReaderModel) {
        match self.key_width_step() {
            None => (Progress::Wait, self),
            Some(ma) => {
                let (p, mb) = ma.key_len_step();
                if p == Progress::Done {
                    mb.key_bytes_step()
                } else {
                    (p, mb)
                }
            },
        }
    }

    /// The byte after the start flag gives the width of the key length;
    /// `None` while it is not in the buffer.
    pub open spec fn key_width_step(self) -> Option<ReaderModel> {
        let buf = self.buffer;
        let len = buf.len() as int;
        let c0 = self.buffer_cursor as int;
        let k = self.key;
        if k.1 != 0 {
            Some(self)
        } else if len - self.flag.1 < 4 || c0 >= len {
            None
        } else {
            Some(ReaderModel { key: (k.0, buf[c0], k.2, k.3, k.4), buffer_cursor: (c0 + 1) as usize, ..self })
        }
    }

    /// The marker `[0, 2, 0]` and the big-endian key length.
    pub open spec fn key_len_step(self) -> (Progress, ReaderModel) {
        let buf = self.buffer;
        let len = buf.len() as int;
        let c1 = self.buffer_cursor as int;
        let k = self.key;
        let k1 = k.1 as int;
        if k.2 != 0 {
            (Progress::Done, self)
        } else if len - self.flag.1 < 7 + k1 || c1 + 3 + k1 > len {
            (Progress::Wait, self)
        } else if !marker_at(buf, c1, 2) || k1 < 8 {
            (Progress::Bad, self.flush())
        } else {
            (
                Progress::Done,
                ReaderModel {
                    key: (k.0, k.1, be_value(buf.subrange(c1 + 3, c1 + 3 + k1)), k.3, k.4),
                    buffer_cursor: (c1 + 3 + k1) as usize,
                    ..self
                },
            )
        }
    }

    /// The marker `[0, 3, 0]`, the key and the marker `[0, 4, 0]`.
    pub open spec fn key_bytes_step(self) -> (Progress, ReaderModel) {
        let buf = self.buffer;
        let len = buf.len() as int;
        let c2 = self.buffer_cursor as int;
        let k = self.key;
        let k2 = k.2 as int;
        if k.0 {
            (Progress::Done, self)
        } else if len - self.flag.1 < 13 + k.1 + k2 || c2 + 6 + k2 > len {
            (Progress::Wait, self)
        } else if !marker_at(buf, c2, 3) || !marker_at(buf, c2 + 3 + k2, 4) {
            (Progress::Bad, self.flush())
        } else {
            (
                Progress::Done,
                ReaderModel {
                    key: (
                        true,
                        k.1,
                        k.2,
                        ((c2 + 3) as usize, (c2 + 2 + k2) as usize),
                        buf.subrange(c2 + 3, c2 + 3 + k2),
                    ),
                    buffer_cursor: (c2 + 6 + k2) as usize,
                    ..self
                },
            )
        }
    }

    /// Reads as much of the value part of the record as the buffer allows:
    /// the width of the value length and the marker `[0, 5, 0]`, the
    /// big-endian value length, then the marker `[0, 6, 0]`, the value and the
    /// end flag `[0, 7, 0]`. Parts already read are skipped.
    pub open spec fn value_step(self) -> (Progress, ReaderModel) {
        let buf = self.buffer;
        let len = buf.len() as int;
        let k1 = self.key.1 as int;
        let k2 = self.key.2 as int;
        let c0 = self.buffer_cursor as int;
        let v = self.value;
        if v.1 == 0 && (len < 17 + k1 + k2 || c0 + 4 > len) {
            (Progress::Wait, self)
        } else if v.1 == 0 && !marker_at(buf, c0 + 1, 5) {
            (Progress::Bad, self.flush())
        } else {
            let v1: u8 = if v.1 == 0 {
                buf[c0]
            } else {
                v.1
            };
            let c1 = if v.1 == 0 {
                c0 + 4
            } else {
                c0
            };
            let ma = ReaderModel { value: (v.0, v1, v.2, v.3), buffer_cursor: c1 as usize, ..self };
            if v.2 == 0 && (len < 21 + k1 + k2 + v1 || c1 + v1 > len) {
                (Progress::Wait, ma)
            } else if v.2 == 0 && v1 < 8 {
                (Progress::Bad, self.flush())
            } else {
                let v2: u64 = if v.2 == 0 {
                    be_value(buf.subrange(c1, c1 + v1))
                } else {
                    v.2
                };
                let c2 = if v.2 == 0 {
                    c1 + v1
                } else {
                    c1
                };
                let mb = ReaderModel { value: (v.0, v1, v2, v.3), buffer_cursor: c2 as usize, ..self };
                if v.0 {
                    (Progress::Done, mb)
                } else if len < 23 + k1 + k2 + v1 + v2 || c2 + 6 + v2 > len {
                    (Progress::Wait, mb)
                } else if !marker_at(buf, c2, 6) || !marker_at(buf, c2 + 3 + v2, 7) {
                    (Progress::Bad, self.flush())
                } else {
                    (
                        Progress::Done,
                        ReaderModel {
                            value: (true, v1, v2, ((c2 + 3) as usize, (c2 + 3 + v2) as usize)),
                            end: (true, (c2 + 3 + v2) as usize, (c2 + 5 + v2) as usize),
                            buffer_cursor: (c2 + 5 + v2) as usize,
                            ..self
                        },
                    )
                }
            }
        }
    }

    /// Counts the zero bytes from the buffer cursor on; all but the last of
    /// them, when that is at least two bytes, are recorded as free space and
    /// skipped.
    pub open spec fn empty_counter(self) -> ReaderModel {
        let z = zeros_from(self.buffer, self.buffer_cursor as int);
        let c = if z > 0 {
            z - 1
        } else {
            0
        };
        if c <= 1 {
            self
        } else {
            let a = self.map_cursor + self.buffer_cursor;
            ReaderModel { buffer_cursor: (self.buffer_cursor + c) as usize, ..self }.process_empty(
                a,
                a + c - 1,
            )
        }
    }

    /// The free-space bookkeeping and the records found agree with one
    /// another, and all of it lies below `limit`.
    pub open spec fn space_ok(self, limit: int) -> bool {
        &&& self.empty_index >= 1
        &&& empties_wf(self.empty_map, self.empty_start, self.empty_end, self.empty_index, limit)
        &&& pointers_wf(self.pointers, self.empty_map, limit)
    }

    /// Records the non-zero stretch `a..=b` as corrupt.
    pub open spec fn process_corrupt(self, a: int, b: int) -> ReaderModel {
        ReaderModel {
            corrupt: self.corrupt.push(((b - a + 1) as usize, (a as usize, b as usize))),
            ..self
        }
    }

    /// Records the zero stretch `a..=b` as free: it extends the free region
    /// that ends right before it, or becomes a new region.
    pub open spec fn process_empty(self, a: int, b: int) -> ReaderModel {
        if a > 0 && self.empty_end.contains_key((a - 1) as usize) {
            let pi = self.empty_end[(a - 1) as usize];
            let ee = self.empty_end.remove((a - 1) as usize);
            if self.empty_map.contains_key(pi) && self.empty_map[pi].1.0 <= b {
                let s = self.empty_map[pi].1.0;
                ReaderModel {
                    empty_map: self.empty_map.insert(pi, ((b + 1 - s) as usize, (s, b as usize))),
                    empty_end: ee.insert(b as usize, pi),
                    ..self
                }
            } else {
                ReaderModel { empty_end: ee, ..self }
            }
        } else {
            let i = self.empty_index;
            ReaderModel {
                empty_map: self.empty_map.insert(i, ((b - a + 1) as usize, (a as usize, b as usize))),
                empty_start: self.empty_start.insert(a as usize, i),
                empty_end: self.empty_end.insert(b as usize, i),
                empty_index: (i + 1) as usize,
                ..self
            }
        }
    }

    /// Records each run (shifted by `base`) in order: zero runs as free,
    /// non-zero runs as corrupt.
    pub open spec fn apply_runs(self, rs: Seq<(bool, int, int)>, base: int) -> ReaderModel
        decreases rs.len(),
    {
        if rs.len() == 0 {
            self
        } else {
            let m = self.apply_runs(rs.drop_last(), base);
            let r = rs.last();
            if r.0 {
                m.process_empty(base + r.1, base + r.2)
            } else {
                m.process_corrupt(base + r.1, base + r.2)
            }
        }
    }

    /// Classifies buffer bytes `start..=end` (when the map is being built),
    /// recording each run at its buffer index plus `offset`, and moves the
    /// buffer cursor past them.
    pub open spec fn classified(self, start: int, end: int, offset: int) -> ReaderModel {
        if !self.build_map {
            ReaderModel { buffer_cursor: (end + 1) as usize, ..self }
        } else {
            let m = self.apply_runs(runs(self.buffer.subrange(start, end + 1)), offset + start);
            ReaderModel { buffer_cursor: (end + 1) as usize, ..m }
        }
    }

    /// Classifies buffer bytes `start..=end` (when the map is being built),
    /// recording each run at its buffer index, and moves the buffer cursor
    /// past them.
    pub open spec fn unhandled(self, start: int, end: int) -> ReaderModel {
        self.classified(start, end, 0)
    }

    /// Classifies the first `len` buffer bytes and drops them from the
    /// buffer; the mapped area advances past them.
    pub open spec fn consume(self, len: int) -> ReaderModel {
        if len == 0 {
            self
        } else {
            let u = self.classified(0, len - 1, self.map_cursor as int);
            ReaderModel {
                buffer: u.buffer.subrange(len, u.buffer.len() as int),
                map_cursor: (u.map_cursor + len) as usize,
                buffer_cursor: 0,
                ..u
            }
        }
    }

    /// Forgets the progress on the record being read (the collected key bytes stay).
    pub open spec fn reset(self) -> ReaderModel {
        ReaderModel {
            flag: (false, 0, 0),
            key: (false, 0, 0, (0, 0), self.key.4),
            value: (false, 0, 0, (0, 0)),
            end: (false, 0, 0),
            ..self
        }
    }

    /// Gives up on the buffer: all of it is classified and dropped, and the
    /// progress is forgotten.
    #[verifier::opaque]
    pub open spec fn flush(self) -> ReaderModel {
        self.consume(self.buffer.len() as int).reset()
    }
}

/// Recording a zero stretch that starts at the limit keeps the bookkeeping
/// sound, now up to the stretch's end.
pub proof fn lemma_process_empty(m: ReaderModel, a: int, b: int)
    requires
        m.space_ok(a),
        0 <= a <= b < usize::MAX,
        m.empty_index < usize::MAX,
    ensures
        m.process_empty(a, b).space_ok(b + 1),
        m.process_empty(a, b).empty_end.contains_key(b as usize),
        m.process_empty(a, b).pointers == m.pointers,
        m.empty_index <= m.process_empty(a, b).empty_index <= m.empty_index + 1,
{
    let n = m.process_empty(a, b);
    let em = m.empty_map;
    let es = m.empty_start;
    let ee = m.empty_end;
    let nem = n.empty_map;
    let nes = n.empty_start;
    let nee = n.empty_end;
    let pm = m.pointers;
    if a > 0 && ee.contains_key((a - 1) as usize) {
        let pi = ee[(a - 1) as usize];
        assert(em.contains_key(pi));
        let s = em[pi].1.0;
        assert forall|j: usize| em.contains_key(j) && j != pi implies em[j].1.1 < s by {
            assert(disjoint(em[pi].1, em[j].1));
            assert(ee[em[j].1.1] == j);
        }
        assert forall|j: usize| #[trigger] nem.contains_key(j) implies {
            &&& 1 <= j < n.empty_index
            &&& region_ok(nem[j])
            &&& nem[j].1.1 < b + 1
            &&& nes.contains_key(nem[j].1.0)
            &&& nes[nem[j].1.0] == j
            &&& nee.contains_key(nem[j].1.1)
            &&& nee[nem[j].1.1] == j
        } by {
            if j != pi {
                assert(em[j].1.1 < s);
            }
        }
        assert forall|st: usize| #[trigger] nes.contains_key(st) implies nem.contains_key(nes[st])
            && nem[nes[st]].1.0 == st by {
            assert(em.contains_key(es[st]));
        }
        assert forall|en: usize| #[trigger] nee.contains_key(en) implies nem.contains_key(nee[en])
            && nem[nee[en]].1.1 == en by {
            if en != b as usize {
                assert(em.contains_key(ee[en]));
            }
        }
        assert forall|x: usize, y: usize|
            #![trigger nem[x], nem[y]]
            nem.contains_key(x) && nem.contains_key(y) && x != y implies disjoint(nem[x].1, nem[y].1) by {
            if x != pi && y != pi {
                assert(disjoint(em[x].1, em[y].1));
            } else if x == pi {
                assert(em[y].1.1 < s);
            } else {
                assert(em[x].1.1 < s);
            }
        }
        assert forall|k: Seq<u8>, j: usize|
            #![trigger pm[k], nem[j]]
            pm.contains_key(k) && nem.contains_key(j) implies disjoint(pm[k].0, nem[j].1) by {
            if j == pi {
                assert(disjoint(pm[k].0, em[pi].1));
            } else {
                assert(disjoint(pm[k].0, em[j].1));
            }
        }
    } else {
        let i = m.empty_index;
        assert(!em.contains_key(i));
        assert(!es.contains_key(a as usize)) by {
            if es.contains_key(a as usize) {
                assert(em.contains_key(es[a as usize]));
            }
        }
        assert(!ee.contains_key(b as usize)) by {
            if ee.contains_key(b as usize) {
                assert(em.contains_key(ee[b as usize]));
            }
        }
        assert forall|j: usize| #[trigger] nem.contains_key(j) implies {
            &&& 1 <= j < n.empty_index
            &&& region_ok(nem[j])
            &&& nem[j].1.1 < b + 1
            &&& nes.contains_key(nem[j].1.0)
            &&& nes[nem[j].1.0] == j
            &&& nee.contains_key(nem[j].1.1)
            &&& nee[nem[j].1.1] == j
        } by {
        }
        assert forall|st: usize| #[trigger] nes.contains_key(st) implies nem.contains_key(nes[st])
            && nem[nes[st]].1.0 == st by {
            if st != a as usize {
                assert(em.contains_key(es[st]));
            }
        }
        assert forall|en: usize| #[trigger] nee.contains_key(en) implies nem.contains_key(nee[en])
            && nem[nee[en]].1.1 == en by {
            if en != b as usize {
                assert(em.contains_key(ee[en]));
            }
        }
        assert forall|x: usize, y: usize|
            #![trigger nem[x], nem[y]]
            nem.contains_key(x) && nem.contains_key(y) && x != y implies disjoint(nem[x].1, nem[y].1) by {
            if x != i && y != i {
                assert(disjoint(em[x].1, em[y].1));
            }
        }
    }
}

/// The runs before the last one cover what comes before the last one.
pub proof fn lemma_runs_drop_last(rs: Seq<(bool, int, int)>, n: int)
    requires
        runs_wf(rs, n),
        rs.len() >= 1,
    ensures
        0 <= rs.last().1 <= rs.last().2 == n - 1,
        rs.len() == 1 ==> rs.last().1 == 0,
        rs.len() > 1 ==> runs_wf(rs.drop_last(), rs.last().1) && rs[rs.len() - 2].0 != rs.last().0,
{
    let t = rs.drop_last();
    assert(0 <= rs[rs.len() - 1].1 <= rs[rs.len() - 1].2);
    if rs.len() > 1 {
        assert(t.last() == rs[rs.len() - 2]);
        assert(runs_adjacent(rs, rs.len() - 2));
        assert forall|i: int| 0 <= i < t.len() - 1 implies #[trigger] runs_adjacent(t, i) by {
            assert(runs_adjacent(rs, i));
        }
        assert forall|i: int| 0 <= i < t.len() implies 0 <= #[trigger] t[i].1 <= t[i].2 < rs.last().1 by {
            assert(0 <= rs[i].1 <= rs[i].2);
            lemma_runs_before(rs, i, rs.len() - 1);
        }
    }
}

/// Recording the runs of a stretch that starts at the limit keeps the
/// bookkeeping sound, now up to the stretch's end.
#[verifier::rlimit(40)]
pub proof fn lemma_apply_runs(m: ReaderModel, rs: Seq<(bool, int, int)>, base: int, n: int)
    requires
        m.space_ok(base),
        runs_wf(rs, n),
        n > 0,
        base >= 0,
        base + n < usize::MAX,
        m.empty_index + rs.len() < usize::MAX,
    ensures
        m.apply_runs(rs, base).space_ok(base + n),
        !rs.last().0 ==> !m.apply_runs(rs, base).empty_end.contains_key((base + n - 1) as usize),
        m.apply_runs(rs, base).pointers == m.pointers,
        m.empty_index <= m.apply_runs(rs, base).empty_index <= m.empty_index + rs.len(),
        m.apply_runs(rs, base) == (ReaderModel {
            empty_map: m.apply_runs(rs, base).empty_map,
            empty_start: m.apply_runs(rs, base).empty_start,
            empty_end: m.apply_runs(rs, base).empty_end,
            empty_index: m.apply_runs(rs, base).empty_index,
            corrupt: m.apply_runs(rs, base).corrupt,
            ..m
        }),
    decreases rs.len(),
{
    let r = rs.last();
    lemma_runs_drop_last(rs, n);
    let p = if rs.len() == 1 {
        m
    } else {
        m.apply_runs(rs.drop_last(), base)
    };
    if rs.len() == 1 {
        assert(rs.drop_last().len() == 0);
        assert(m.apply_runs(rs.drop_last(), base) == m);
    } else {
        lemma_apply_runs(m, rs.drop_last(), base, r.1);
    }
    if r.0 {
        lemma_process_empty(p, base + r.1, base + r.2);
    } else {
        let q = p.process_corrupt(base + r.1, base + r.2);
        assert forall|e: usize| #[trigger] q.empty_end.contains_key(e) implies e < base + r.1 by {
            assert(p.empty_map.contains_key(p.empty_end[e]));
        }
    }
}

/// A run ends before any later run starts.
pub proof fn lemma_runs_before(rs: Seq<(bool, int, int)>, i: int, j: int)
    requires
        forall|k: int| 0 <= k < rs.len() ==> 0 <= #[trigger] rs[k].1 <= rs[k].2,
        forall|k: int| 0 <= k < rs.len() - 1 ==> #[trigger] runs_adjacent(rs, k),
        0 <= i < j < rs.len(),
    ensures
        rs[i].2 < rs[j].1,
    decreases j - i,
{
    assert(runs_adjacent(rs, j - 1));
    if i < j - 1 {
        lemma_runs_before(rs, i, j - 1);
        assert(rs[j - 1].1 <= rs[j - 1].2);
    }
}

/// The bookkeeping that is sound up to some limit is sound up to any higher one.
pub proof fn lemma_space_ok_grow(m: ReaderModel, l1: int, l2: int)
    requires
        m.space_ok(l1),
        l1 <= l2,
    ensures
        m.space_ok(l2),
{
}

/// Recording runs changes only the free regions, the region counter and the
/// corrupt regions, and what it makes of them depends on nothing else.
pub proof fn lemma_apply_runs_frame(m1: ReaderModel, m2: ReaderModel, rs: Seq<(bool, int, int)>, base: int)
    requires
        m1.empty_map == m2.empty_map,
        m1.empty_start == m2.empty_start,
        m1.empty_end == m2.empty_end,
        m1.empty_index == m2.empty_index,
        m1.corrupt == m2.corrupt,
    ensures
        m1.apply_runs(rs, base) == (ReaderModel {
            empty_map: m1.apply_runs(rs, base).empty_map,
            empty_start: m1.apply_runs(rs, base).empty_start,
            empty_end: m1.apply_runs(rs, base).empty_end,
            empty_index: m1.apply_runs(rs, base).empty_index,
            corrupt: m1.apply_runs(rs, base).corrupt,
            ..m1
        }),
        m1.apply_runs(rs, base).empty_map == m2.apply_runs(rs, base).empty_map,
        m1.apply_runs(rs, base).empty_start == m2.apply_runs(rs, base).empty_start,
        m1.apply_runs(rs, base).empty_end == m2.apply_runs(rs, base).empty_end,
        m1.apply_runs(rs, base).empty_index == m2.apply_runs(rs, base).empty_index,
        m1.apply_runs(rs, base).corrupt == m2.apply_runs(rs, base).corrupt,
    decreases rs.len(),
{
    if rs.len() > 0 {
        lemma_apply_runs_frame(m1, m2, rs.drop_last(), base);
    }
}

/// Giving up the buffer does not depend on the progress made on the record.
pub proof fn lemma_flush_ignores_progress(m1: ReaderModel, m2: ReaderModel)
    requires
        m1.buffer.len() > 0,
        m1 == (ReaderModel {
            flag: m1.flag,
            key: (m1.key.0, m1.key.1, m1.key.2, m1.key.3, m2.key.4),
            value: m1.value,
            end: m1.end,
            buffer_cursor: m1.buffer_cursor,
            ..m2
        }),
    ensures
        m1.flush() == m2.flush(),
{
    reveal(ReaderModel::flush);
    let len = m1.buffer.len() as int;
    let rs = runs(m1.buffer.subrange(0, len));
    lemma_apply_runs_frame(m1, m2, rs, m1.map_cursor as int);
    lemma_apply_runs_frame(m2, m1, rs, m1.map_cursor as int);
}

/// The start flag is found by a scan that restarts at a mismatching byte.
pub proof fn lemma_flag_restartable()
    ensures
        restartable(flag_pattern()),
        flag_pattern().len() == 3,
{
}

/// Classifying and dropping the first `len` bytes changes only the free and
/// corrupt bookkeeping, the buffer (which loses those bytes) and the cursors.
pub proof fn lemma_consume_frame(m: ReaderModel, len: int)
    requires
        0 < len <= m.buffer.len(),
    ensures
        m.consume(len) == (ReaderModel {
            empty_map: m.consume(len).empty_map,
            empty_start: m.consume(len).empty_start,
            empty_end: m.consume(len).empty_end,
            empty_index: m.consume(len).empty_index,
            corrupt: m.consume(len).corrupt,
            buffer: m.buffer.subrange(len, m.buffer.len() as int),
            map_cursor: (m.map_cursor + len) as usize,
            buffer_cursor: 0,
            ..m
        }),
{
    if m.build_map {
        let rs = runs(m.buffer.subrange(0, len));
        lemma_apply_runs_frame(m, m, rs, m.map_cursor as int);
    }
}

/// A step of reading never makes the buffer longer, and a pointer it gives
/// lies at the front of the buffer and of the rest of the mapped area.
pub proof fn lemma_read_step(m: ReaderModel)
    ensures
        m.read_step().1.buffer.len() <= m.buffer.len(),
        m.read_step().0 matches Some(p) ==> {
            let m1 = m.read_step().1;
            &&& p.boundry.0.0 == m1.map_cursor
            &&& p.boundry.0.0 <= p.boundry.0.1
            &&& p.boundry.0.1 - p.boundry.0.0 <= p.boundry.1.1 < m1.buffer.len()
            &&& p.value.1.0 <= p.value.1.1 <= p.boundry.1.1 + 1
            &&& p.pointer_type == PointerType::Data
        },
{
    lemma_flag_step_shrinks(m);
    match m.flag_step() {
        None => {},
        Some(m1) => {
            lemma_key_step_shrinks(m1);
            let (kp, m2) = if m1.flag.0 && !m1.key.0 {
                m1.key_step()
            } else {
                (Progress::Done, m1)
            };
            lemma_value_step_shrinks(m2);
            assert(m1.parts_step() == m.read_step());
        },
    }
}

proof fn lemma_flag_step_shrinks(m: ReaderModel)
    ensures
        m.flag_step() matches Some(m1) ==> m1.buffer.len() <= m.buffer.len(),
{
    if !m.flag.0 {
        match first_occurrence(m.buffer, flag_pattern(), m.buffer_cursor as int) {
            Some(l) => {
                lemma_first_occurrence(m.buffer, flag_pattern(), m.buffer_cursor as int);
                if l > 0 {
                    lemma_consume_frame(ReaderModel { no_flag_in_buffer: false, ..m }, l);
                }
            },
            None => {},
        }
    }
}

proof fn lemma_key_step_shrinks(m: ReaderModel)
    ensures
        m.key_step().1.buffer.len() <= m.buffer.len(),
{
    match m.key_width_step() {
        None => {},
        Some(ma) => {
            lemma_flush_shrinks(ma);
            let (p, mb) = ma.key_len_step();
            if p == Progress::Done {
                lemma_flush_shrinks(mb);
            }
        },
    }
}

proof fn lemma_value_step_shrinks(m: ReaderModel)
    ensures
        m.value_step().1.buffer.len() <= m.buffer.len(),
{
    lemma_flush_shrinks(m);
}

/// Giving up the buffer leaves it empty.
pub proof fn lemma_flush_shrinks(m: ReaderModel)
    ensures
        m.flush().buffer.len() == 0,
{
    reveal(ReaderModel::flush);
    if m.buffer.len() > 0 {
        lemma_consume_frame(m, m.buffer.len() as int);
    }
}

/// Keeping a record found at the front of the rest of the mapped area keeps
/// the bookkeeping sound, now up to the record's end.
pub proof fn lemma_take_record_space(m: ReaderModel, p: PointerView)
    requires
        m.space_ok(m.map_cursor as int),
        p.boundry.0.0 == m.map_cursor,
        p.boundry.0.0 <= p.boundry.0.1,
        p.boundry.0.1 - p.boundry.0.0 <= p.boundry.1.1 < m.buffer.len(),
        m.map_cursor + m.buffer.len() + 1 < usize::MAX,
    ensures
        m.take_record(p).space_ok(m.take_record(p).map_cursor as int),
        m.take_record(p).map_cursor == m.map_cursor + (p.boundry.0.1 - p.boundry.0.0 + 1),
{
    let n = m.take_record(p);
    let pm = m.pointers;
    let npm = n.pointers;
    let em = m.empty_map;
    if m.build_map && p.pointer_type == PointerType::Data {
        let k = p.key.2;
        assert forall|k1: Seq<u8>, k2: Seq<u8>|
            #![trigger npm[k1], npm[k2]]
            npm.contains_key(k1) && npm.contains_key(k2) && k1 != k2 implies disjoint(npm[k1].0, npm[k2].0) by {
            if k1 != k && k2 != k {
                assert(disjoint(pm[k1].0, pm[k2].0));
            }
        }
        assert forall|k1: Seq<u8>, j: usize|
            #![trigger npm[k1], em[j]]
            npm.contains_key(k1) && em.contains_key(j) implies disjoint(npm[k1].0, em[j].1) by {
            if k1 != k {
                assert(disjoint(pm[k1].0, em[j].1));
            }
        }
    }
}

impl Reader {
    /// The reader as plain values.
    pub open spec fn model(&self) -> ReaderModel {
        ReaderModel {
            no_flag_in_buffer: self.no_flag_in_buffer,
            empty_map: self.empty_map@,
            empty_start: self.empty_start@,
            empty_end: self.empty_end@,
            empty_index: self.empty_index,
            pointers: self.pointers@,
            corrupt: self.corrupt@,
            build_map: self.build_map,
            to_find: self.to_find@.map_values(|v: Vec<u8>| v@),
            find_values: self.find_values,
            get_values_controll: self.get_values_controll,
            values: self.values@.map_values(|p: (Vec<u8>, Vec<u8>)| (p.0@, p.1@)),
            map_cursor: self.map_cursor,
            buffer_cursor: self.buffer_cursor,
            buffer: self.buffer@,
            func: self.func,
            flag: self.flag,
            key: (self.key.0, self.key.1, self.key.2, self.key.3, self.key.4@),
            value: self.value,
            end: self.end,
        }
    }
}

} // verus!
