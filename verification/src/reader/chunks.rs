use crate::parser::writer::record;
use crate::reader::area::{
    area, lemma_consume_zeros, lemma_well_cut_tail, law_area_round_trip, well_cut, zeros, Segment,
};
use crate::reader::format::{
    lemma_flag_at_front, lemma_map_loop_empty, lemma_map_loop_record, lemma_record_layout_len,
    lemma_record_starts_with_flag,
};
use crate::reader::model::{
    first_occurrence, flag_pattern, lemma_apply_runs_frame, lemma_consume_frame, lemma_first_occurrence,
    lemma_read_step, lemma_runs_wf, occurs_at, runs, Progress, ReaderModel,
};
use crate::reader::pieces::lemma_cut_in_record;
use crate::reader::unhandled::{lemma_apply_runs_index, lemma_runs_count};
use vstd::prelude::*;

verus! {

/// The reader after each of `pieces` was handed to it in turn, each time
/// reading every whole record there is (as `Reader::map` does per call).
pub open spec fn mapped(m: ReaderModel, pieces: Seq<Seq<u8>>) -> ReaderModel
    decreases pieces.len(),
{
    if pieces.len() == 0 {
        m
    } else {
        mapped(m.appended(pieces[0]).map_loop(), pieces.drop_first())
    }
}

/// Two readers whose next step of reading agrees read alike.
proof fn lemma_same_step_loop(t: ReaderModel, f: ReaderModel)
    requires
        t.read_step() == f.read_step(),
    ensures
        t.map_loop() == f.map_loop(),
{
    lemma_read_step(t);
    lemma_read_step(f);
    let (p, m1) = t.read_step();
    match p {
        Some(pv) => {
            let m2 = m1.take_record(pv);
            assert(m2.buffer.len() == m1.buffer.len() - pv.boundry.1.1 - 1);
        },
        None => {},
    }
}

/// Where the flag search of a reader starts does not matter while it starts
/// no later than the first place the start flag occurs.
proof fn lemma_cursor_free(t: ReaderModel, f: ReaderModel, cu: int)
    requires
        t == (ReaderModel { buffer_cursor: cu as usize, ..f }),
        0 <= cu <= usize::MAX,
        !f.flag.0,
        f.buffer_cursor == 0,
        forall|p: int| 0 <= p < cu ==> !#[trigger] occurs_at(f.buffer, flag_pattern(), p),
    ensures
        t.read_step() == f.read_step(),
{
    let buf = f.buffer;
    lemma_first_occurrence(buf, flag_pattern(), cu);
    lemma_first_occurrence(buf, flag_pattern(), 0);
    let o = first_occurrence(buf, flag_pattern(), 0);
    assert(first_occurrence(buf, flag_pattern(), cu) == o) by {
        match o {
            Some(q) => {
                match first_occurrence(buf, flag_pattern(), cu) {
                    Some(q2) => {
                        assert(q2 >= q);
                    },
                    None => {},
                }
            },
            None => {},
        }
    }
    match o {
        Some(l) => {
            let t0 = ReaderModel { no_flag_in_buffer: false, ..t };
            let f0 = ReaderModel { no_flag_in_buffer: false, ..f };
            if l > 0 {
                lemma_consume_frame(t0, l);
                lemma_consume_frame(f0, l);
                if f.build_map {
                    let rs = runs(buf.subrange(0, l - 1 + 1));
                    lemma_apply_runs_frame(t0, f0, rs, f.map_cursor as int);
                }
                assert(t0.consume(l) == f0.consume(l));
            } else {
                assert(cu == 0);
            }
        },
        None => {},
    }
}

/// No start flag begins before position `n` of a buffer whose first `n`
/// bytes, and the byte after them, are zero.
proof fn lemma_no_flag_before(buf: Seq<u8>, n: int)
    requires
        forall|i: int| 0 <= i < n && i < buf.len() ==> buf[i] == 0,
        n < buf.len() ==> buf[n] == 0,
    ensures
        forall|p: int| p < n ==> !#[trigger] occurs_at(buf, flag_pattern(), p),
{
    assert forall|p: int| p < n implies !#[trigger] occurs_at(buf, flag_pattern(), p) by {
        if occurs_at(buf, flag_pattern(), p) {
            assert(buf.subrange(p, p + 3)[1] == flag_pattern()[1]);
            assert(buf[p + 1] == 1);
        }
    }
}

/// At rest, with `n` zero bytes and then the start flag at the front of the
/// buffer: reading goes as it does once the zero bytes are kept as free
/// space.
proof fn lemma_zeros_then_flag(m: ReaderModel, n: nat, b: Seq<u8>)
    requires
        m.at_rest(),
        n >= 1,
        b.len() >= 3,
        b.subrange(0, 3) == flag_pattern(),
        m.buffer == zeros(n) + b,
    ensures
        m.read_step() == m.skipped(n, b).read_step(),
{
    let buf = m.buffer;
    assert(occurs_at(buf, flag_pattern(), n as int)) by {
        assert(buf.subrange(n as int, n + 3int) =~= b.subrange(0, 3));
    }
    assert(buf[n as int] == b[0]);
    assert(b[0] == b.subrange(0, 3)[0]);
    lemma_no_flag_before(buf, n as int);
    lemma_first_occurrence(buf, flag_pattern(), 0);
    assert(first_occurrence(buf, flag_pattern(), 0) == Some(n as int));
    let m0 = ReaderModel { no_flag_in_buffer: false, ..m };
    lemma_consume_zeros(m0, n, b);
    let s = m.skipped(n, b);
    assert(m0.skipped(n, b).flag_found() == s.flag_found());
    assert(m.flag_step() == Some(s.flag_found()));
    lemma_flag_at_front(s);
}

/// A piece of the stored area may end `c` bytes into it: anywhere but one or
/// two bytes into a record, unless at least seven bytes (the zero bytes right
/// before the record and those one or two) wait in the reader's buffer then;
/// a piece that ends further inside a record leaves it with a key and a value
/// that are not empty.
pub open spec fn cut_ok(segs: Seq<Segment>, c: int) -> bool
    decreases segs.len(),
{
    if segs.len() == 0 {
        true
    } else {
        match segs[0] {
            Segment::Record(k, v) => {
                let l = record(k, v).len() as int;
                if c >= l {
                    cut_ok(segs.drop_first(), c - l)
                } else {
                    c <= 0 || (3 <= c && k.len() >= 1 && v.len() >= 1)
                }
            },
            Segment::Zeros(n) => {
                if c <= n {
                    true
                } else if c < n + 3 {
                    c >= 7
                } else {
                    cut_ok(segs.drop_first(), c - n)
                }
            },
        }
    }
}

/// A piece that ends six bytes after a record (five zero bytes and the first
/// byte of the next record's start flag) misses that flag, unless the next
/// piece is exactly one byte long: with seven bytes waiting, the search for
/// the flag steps back far enough to find it.
pub open spec fn cut_rescued(segs: Seq<Segment>, c: int, d: int) -> bool
    decreases segs.len(),
{
    if segs.len() == 0 {
        false
    } else {
        match segs[0] {
            Segment::Record(k, v) => {
                let l = record(k, v).len() as int;
                c >= l && cut_rescued(segs.drop_first(), c - l, d - l)
            },
            Segment::Zeros(n) => {
                if c < n + 3 {
                    n == 5 && c == 6 && d == 7
                } else {
                    cut_rescued(segs.drop_first(), c - n, d - n)
                }
            },
        }
    }
}

/// Reading the first `c` bytes of a stored area, then the next ones up to
/// `d`, gives the same as reading its first `d` bytes at once, when `c` is a
/// place where a piece may end.
#[verifier::rlimit(40)]
#[verifier::spinoff_prover]
proof fn lemma_split(m: ReaderModel, segs: Seq<Segment>, c: int, d: int)
    requires
        m.at_rest(),
        m.buffer == Seq::<u8>::empty(),
        well_cut(segs),
        cut_ok(segs, c) || cut_rescued(segs, c, d),
        0 <= c <= d <= area(segs).len(),
        m.map_cursor + area(segs).len() <= usize::MAX,
    ensures
        m.appended(area(segs).take(c)).map_loop().appended(area(segs).subrange(c, d)).map_loop()
            == m.appended(area(segs).take(d)).map_loop(),
    decreases segs.len(),
{
    let a = area(segs);
    if segs.len() == 0 {
        assert(m.appended(a.take(c)) == m);
        lemma_map_loop_empty(m);
        assert(m.appended(a.subrange(c, d)) == m);
        assert(m.appended(a.take(d)) == m);
    } else {
        let tail = segs.drop_first();
        let a2 = area(tail);
        lemma_well_cut_tail(segs);
        match segs[0] {
            Segment::Record(k, v) => {
                let r = record(k, v);
                let l = r.len() as int;
                assert(a == r + a2);
                lemma_record_layout_len(k, v, a2);
                if c >= l {
                    lemma_split_record_whole(m, segs, k, v, c, d);
                } else if c <= 0 {
                    assert(m.appended(a.take(c)) == m);
                    lemma_map_loop_empty(m);
                    assert(a.subrange(c, d) =~= a.take(d));
                } else {
                    let more = a.subrange(c, d);
                    assert(a.take(c) =~= r.take(c));
                    let b = r.take(c) + more;
                    assert(b =~= a.take(d));
                    if b.len() < l {
                        assert(b =~= r.take(b.len() as int));
                    } else {
                        assert(b.take(l) =~= r);
                    }
                    lemma_cut_in_record(m, k, v, c, more);
                }
            },
            Segment::Zeros(n) => {
                assert(n >= 1 && (1 < segs.len() ==> segs[1] is Record)) by {
                    assert(0 <= 0 < segs.len());
                }
                assert(a == zeros(n) + a2);
                if c < n + 3 {
                    lemma_split_zeros_short(m, segs, n, c, d);
                } else {
                    lemma_split_zeros_flag(m, segs, n, c, d);
                }
            },
        }
    }
}

/// `lemma_split` when the first piece holds all the first record.
#[verifier::rlimit(80)]
#[verifier::spinoff_prover]
proof fn lemma_split_record_whole(m: ReaderModel, segs: Seq<Segment>, k: Seq<u8>, v: Seq<u8>, c: int, d: int)
    requires
        m.at_rest(),
        m.buffer == Seq::<u8>::empty(),
        well_cut(segs),
        segs.len() > 0,
        segs[0] == Segment::Record(k, v),
        record(k, v).len() <= c <= d <= area(segs).len(),
        cut_ok(segs.drop_first(), c - record(k, v).len()) || cut_rescued(
            segs.drop_first(),
            c - record(k, v).len(),
            d - record(k, v).len(),
        ),
        m.map_cursor + area(segs).len() <= usize::MAX,
    ensures
        m.appended(area(segs).take(c)).map_loop().appended(area(segs).subrange(c, d)).map_loop()
            == m.appended(area(segs).take(d)).map_loop(),
    decreases segs.len(), 0int,
{
    let a = area(segs);
    let tail = segs.drop_first();
    let a2 = area(tail);
    let r = record(k, v);
    let l = r.len() as int;
    assert(a == r + a2);
    lemma_record_layout_len(k, v, a2);
    lemma_well_cut_tail(segs);
    let m1 = m.stored(k, v, seq![]);
    let xc = a2.take(c - l);
    let xd = a2.take(d - l);
    let qc = m.appended(a.take(c));
    let qd = m.appended(a.take(d));
    assert(qc.buffer =~= r + xc);
    assert(qd.buffer =~= r + xd);
    lemma_map_loop_record(qc, k, v, xc);
    lemma_map_loop_record(qd, k, v, xd);
    assert(qc.stored(k, v, xc) == m1.appended(xc)) by {
        assert(Seq::<u8>::empty() + xc =~= xc);
    }
    assert(qd.stored(k, v, xd) == m1.appended(xd)) by {
        assert(Seq::<u8>::empty() + xd =~= xd);
    }
    assert(a.subrange(c, d) =~= a2.subrange(c - l, d - l));
    lemma_split(m1, tail, c - l, d - l);
}

/// `lemma_split` when the first piece ends among the zero bytes that come
/// first, or at most two bytes into the record after them.
proof fn lemma_split_zeros_short(m: ReaderModel, segs: Seq<Segment>, n: nat, c: int, d: int)
    requires
        m.at_rest(),
        m.buffer == Seq::<u8>::empty(),
        well_cut(segs),
        segs.len() > 0,
        segs[0] == Segment::Zeros(n),
        n >= 1,
        1 < segs.len() ==> segs[1] is Record,
        0 <= c < n + 3,
        c <= n || c >= 7 || (n == 5 && c == 6 && d == 7),
        c <= d <= area(segs).len(),
    ensures
        m.appended(area(segs).take(c)).map_loop().appended(area(segs).subrange(c, d)).map_loop()
            == m.appended(area(segs).take(d)).map_loop(),
{
    let a = area(segs);
    let tail = segs.drop_first();
    let a2 = area(tail);
    assert(a == zeros(n) + a2);
    // the byte right after the zero bytes, when there is one, starts a record
    assert(n < a.len() ==> a[n as int] == 0) by {
        if n < a.len() {
            assert(tail.len() > 0);
            assert(tail[0] == segs[1]);
            let k = tail[0]->Record_0;
            let v = tail[0]->Record_1;
            assert(a2 == record(k, v) + area(tail.drop_first()));
            lemma_record_starts_with_flag(k, v, area(tail.drop_first()));
        }
    }
    let q = m.appended(a.take(c));
    assert(q.buffer =~= a.take(c));
    lemma_no_flag_before(q.buffer, n as int);
    assert forall|p: int| 0 <= p implies !#[trigger] occurs_at(q.buffer, flag_pattern(), p) by {
        if p >= n {
            if occurs_at(q.buffer, flag_pattern(), p) {
                assert(p + 3 <= c);
            }
        }
    }
    lemma_first_occurrence(q.buffer, flag_pattern(), 0);
    assert(q.read_step() == (None::<crate::reader::model::PointerView>, q.flag_missed()));
    let ms = q.flag_missed();
    assert(q.map_loop() == ms);
    let cu = ms.buffer_cursor as int;
    let f = m.appended(a.take(d));
    assert(f.buffer =~= a.take(d));
    lemma_no_flag_before(f.buffer, n as int);
    assert forall|p: int| 0 <= p < cu implies !#[trigger] occurs_at(f.buffer, flag_pattern(), p) by {
        if p >= n && occurs_at(f.buffer, flag_pattern(), p) {
            assert(p + 3 <= d);
        }
    }
    let t = ms.appended(a.subrange(c, d));
    assert(t == (ReaderModel { buffer_cursor: cu as usize, ..f })) by {
        assert(a.take(c) + a.subrange(c, d) =~= a.take(d));
    }
    lemma_cursor_free(t, f, cu);
    lemma_same_step_loop(t, f);
}

/// `lemma_split` when the first piece holds the zero bytes that come first
/// and at least the start flag of the record after them.
#[verifier::rlimit(80)]
#[verifier::spinoff_prover]
proof fn lemma_split_zeros_flag(m: ReaderModel, segs: Seq<Segment>, n: nat, c: int, d: int)
    requires
        m.at_rest(),
        m.buffer == Seq::<u8>::empty(),
        well_cut(segs),
        segs.len() > 0,
        segs[0] == Segment::Zeros(n),
        n >= 1,
        1 < segs.len() ==> segs[1] is Record,
        n + 3 <= c <= d <= area(segs).len(),
        cut_ok(segs.drop_first(), c - n) || cut_rescued(segs.drop_first(), c - n, d - n),
        m.map_cursor + area(segs).len() <= usize::MAX,
    ensures
        m.appended(area(segs).take(c)).map_loop().appended(area(segs).subrange(c, d)).map_loop()
            == m.appended(area(segs).take(d)).map_loop(),
    decreases segs.len(), 0int,
{
    let a = area(segs);
    let tail = segs.drop_first();
    let a2 = area(tail);
    assert(a == zeros(n) + a2);
    lemma_well_cut_tail(segs);
    assert(tail.len() > 0);
    assert(tail[0] == segs[1]);
    let k = tail[0]->Record_0;
    let v = tail[0]->Record_1;
    assert(a2 == record(k, v) + area(tail.drop_first()));
    lemma_record_starts_with_flag(k, v, area(tail.drop_first()));
    let m1 = m.skipped(n, seq![]);
    let xc = a2.take(c - n);
    let xd = a2.take(d - n);
    assert(xc.subrange(0, 3) =~= a2.subrange(0, 3));
    assert(xd.subrange(0, 3) =~= a2.subrange(0, 3));
    assert(a.take(c) =~= zeros(n) + xc);
    assert(a.take(d) =~= zeros(n) + xd);
    lemma_zeros_flag_loop(m, n, xc);
    lemma_zeros_flag_loop(m, n, xd);
    assert(a.subrange(c, d) =~= a2.subrange(c - n, d - n));
    lemma_split(m1, tail, c - n, d - n);
}

/// At rest with nothing in the buffer, reading `n` zero bytes and then bytes
/// that start with the start flag goes as reading those bytes once the zero
/// bytes are kept as free space.
#[verifier::spinoff_prover]
proof fn lemma_zeros_flag_loop(m: ReaderModel, n: nat, x: Seq<u8>)
    requires
        m.at_rest(),
        m.buffer == Seq::<u8>::empty(),
        n >= 1,
        x.len() >= 3,
        x.subrange(0, 3) == flag_pattern(),
    ensures
        m.appended(zeros(n) + x).map_loop() == m.skipped(n, seq![]).appended(x).map_loop(),
{
    let q = m.appended(zeros(n) + x);
    assert(q.buffer =~= zeros(n) + x);
    lemma_zeros_then_flag(q, n, x);
    assert(q.skipped(n, x) == m.skipped(n, seq![]).appended(x)) by {
        assert(Seq::<u8>::empty() + x =~= x);
    }
    lemma_same_step_loop(q, m.skipped(n, seq![]).appended(x));
}

/// Handing one more piece over is reading it after the others.
proof fn lemma_mapped_push(m: ReaderModel, ps: Seq<Seq<u8>>, x: Seq<u8>)
    ensures
        mapped(m, ps.push(x)) == mapped(m, ps).appended(x).map_loop(),
    decreases ps.len(),
{
    let px = ps.push(x);
    if ps.len() == 0 {
        assert(px.drop_first() =~= Seq::<Seq<u8>>::empty());
        assert(px[0] == x);
        let m1 = m.appended(x).map_loop();
        assert(mapped(m1, px.drop_first()) == m1);
        assert(mapped(m, px) == mapped(m1, px.drop_first()));
    } else {
        assert(px.drop_first() =~= ps.drop_first().push(x));
        assert(px[0] == ps[0]);
        let m1 = m.appended(ps[0]).map_loop();
        lemma_mapped_push(m1, ps.drop_first(), x);
        assert(mapped(m, px) == mapped(m1, px.drop_first()));
        assert(mapped(m, ps) == mapped(m1, ps.drop_first()));
    }
}

/// The first `j` pieces, put together, are the start of all of them put
/// together.
proof fn lemma_flatten_take(ps: Seq<Seq<u8>>, j: int)
    requires
        0 <= j <= ps.len(),
    ensures
        ps.take(j).flatten().len() <= ps.flatten().len(),
        ps.take(j).flatten() == ps.flatten().take(ps.take(j).flatten().len() as int),
    decreases ps.len(),
{
    if j == 0 {
        assert(ps.take(0) =~= Seq::<Seq<u8>>::empty());
        assert(ps.flatten().take(0) =~= Seq::<u8>::empty());
    } else {
        let t = ps.drop_first();
        lemma_flatten_take(t, j - 1);
        assert(ps.take(j).drop_first() =~= t.take(j - 1));
        assert(ps.take(j).first() == ps.first());
        let x = ps.first();
        let ft = t.take(j - 1).flatten();
        assert(ps.take(j).flatten() == x + ft);
        assert(ps.flatten() == x + t.flatten());
        assert(x + ft =~= (x + t.flatten()).take((x + ft).len() as int));
    }
}

/// The first `j + 1` pieces put together are the first `j` put together and
/// then piece `j`.
proof fn lemma_flatten_next(ps: Seq<Seq<u8>>, j: int)
    requires
        0 <= j < ps.len(),
    ensures
        ps.take(j + 1).flatten() == ps.take(j).flatten() + ps[j],
{
    let a = ps.take(j + 1);
    let b = ps.take(j);
    a.lemma_flatten_and_flatten_alt_are_equivalent();
    b.lemma_flatten_and_flatten_alt_are_equivalent();
    assert(a.drop_last() =~= b);
    assert(a.last() == ps[j]);
}

/// Handing the area over in its first `j` pieces reads as the bytes of those
/// pieces read at once.
proof fn lemma_mapped_prefix(m: ReaderModel, segs: Seq<Segment>, pieces: Seq<Seq<u8>>, j: int)
    requires
        m.at_rest(),
        m.buffer == Seq::<u8>::empty(),
        well_cut(segs),
        pieces.flatten() == area(segs),
        forall|i: int|
            0 <= i < pieces.len() ==> cut_ok(segs, #[trigger] pieces.take(i).flatten().len() as int) || cut_rescued(
                segs,
                pieces.take(i).flatten().len() as int,
                pieces.take(i + 1).flatten().len() as int,
            ),
        m.map_cursor + area(segs).len() <= usize::MAX,
        0 <= j <= pieces.len(),
    ensures
        mapped(m, pieces.take(j)) == m.appended(area(segs).take(pieces.take(j).flatten().len() as int)).map_loop(),
    decreases j,
{
    let a = area(segs);
    if j == 0 {
        assert(pieces.take(0) =~= Seq::<Seq<u8>>::empty());
        assert(a.take(0) =~= Seq::<u8>::empty());
        assert(m.appended(a.take(0)) == m);
        lemma_map_loop_empty(m);
    } else {
        lemma_mapped_prefix(m, segs, pieces, j - 1);
        let x = pieces[j - 1];
        assert(pieces.take(j) =~= pieces.take(j - 1).push(x));
        lemma_mapped_push(m, pieces.take(j - 1), x);
        lemma_flatten_next(pieces, j - 1);
        lemma_flatten_take(pieces, j - 1);
        lemma_flatten_take(pieces, j);
        let c = pieces.take(j - 1).flatten().len() as int;
        let d = pieces.take(j).flatten().len() as int;
        assert(x =~= a.subrange(c, d)) by {
            assert(pieces.take(j).flatten() == a.take(d));
            assert(pieces.take(j - 1).flatten() == a.take(c));
            assert forall|i: int| 0 <= i < x.len() implies x[i] == a.subrange(c, d)[i] by {
                assert(pieces.take(j).flatten()[c + i] == x[i]);
            }
        }
        assert(cut_ok(segs, c) || cut_rescued(segs, c, d)) by {
            assert(pieces.take(j - 1 + 1) == pieces.take(j));
        }
        lemma_split(m, segs, c, d);
    }
}

/// A stored area made of records and free stretches, handed to a reader at
/// rest in pieces that end where `cut_ok` allows, or where `cut_rescued`
/// says the next piece makes up for it (each piece read as
/// far as it goes before the next comes), reads as the whole area at once;
/// once the input ends, it gives back each record under its key at its place
/// and each free stretch as free space, in order (see
/// `ReaderModel::replayed`).
pub proof fn law_area_in_pieces(m: ReaderModel, segs: Seq<Segment>, pieces: Seq<Seq<u8>>)
    requires
        m.at_rest(),
        m.buffer == Seq::<u8>::empty(),
        well_cut(segs),
        pieces.flatten() == area(segs),
        forall|i: int|
            0 <= i < pieces.len() ==> cut_ok(segs, #[trigger] pieces.take(i).flatten().len() as int) || cut_rescued(
                segs,
                pieces.take(i).flatten().len() as int,
                pieces.take(i + 1).flatten().len() as int,
            ),
        m.map_cursor + area(segs).len() <= usize::MAX,
    ensures
        mapped(m, pieces) == m.appended(area(segs)).map_loop(),
        mapped(m, pieces).end_of_input() == m.replayed(segs),
{
    let a = area(segs);
    lemma_mapped_prefix(m, segs, pieces, pieces.len() as int);
    assert(pieces.take(pieces.len() as int) =~= pieces);
    assert(a.take(a.len() as int) =~= a);
    law_area_round_trip(m, segs);
}

impl ReaderModel {
    /// A start flag that was found lies at the front of the buffer.
    pub open spec fn flag_at_front(self) -> bool {
        self.flag.0 ==> self.flag.1 == 0
    }

    /// Where the bytes in the buffer end in the stored area.
    pub open spec fn read_end(self) -> int {
        self.map_cursor + self.buffer.len()
    }

    /// The region counter plus the bytes in the buffer: what bounds the
    /// region numbers reading the buffer can take.
    pub open spec fn index_room(self) -> int {
        self.empty_index + self.buffer.len()
    }
}

/// Classifying and dropping the first `len` bytes of the buffer moves the
/// mapped area past them and takes at most one region number per byte.
proof fn lemma_consume_counts(m: ReaderModel, len: int)
    requires
        0 <= len <= m.buffer.len(),
        m.read_end() <= usize::MAX,
        m.index_room() < usize::MAX,
    ensures
        m.consume(len).read_end() == m.read_end(),
        m.consume(len).index_room() <= m.index_room(),
        m.consume(len).flag == m.flag,
        len > 0 ==> m.consume(len).buffer_cursor == 0,
{
    if len > 0 {
        lemma_consume_frame(m, len);
        if m.build_map {
            let sub = m.buffer.subrange(0, len - 1 + 1);
            let rs = runs(sub);
            lemma_runs_wf(sub);
            lemma_runs_count(rs, len);
            lemma_apply_runs_index(m, rs, m.map_cursor + 0);
        }
    }
}

/// Giving up the buffer moves the mapped area past it and forgets the flag.
proof fn lemma_flush_counts(m: ReaderModel)
    requires
        m.read_end() <= usize::MAX,
        m.index_room() < usize::MAX,
    ensures
        m.flush().read_end() == m.read_end(),
        m.flush().index_room() <= m.index_room(),
        !m.flush().flag.0,
{
    reveal(ReaderModel::flush);
    lemma_consume_counts(m, m.buffer.len() as int);
}

/// Reading the key part keeps where the buffer ends in the stored area, takes
/// no region number beyond its bytes, and keeps a found flag at the front.
proof fn lemma_key_step_counts(m: ReaderModel)
    requires
        m.read_end() <= usize::MAX,
        m.index_room() < usize::MAX,
        m.flag_at_front(),
    ensures
        m.key_step().1.read_end() == m.read_end(),
        m.key_step().1.index_room() <= m.index_room(),
        m.key_step().1.flag_at_front(),
{
    match m.key_width_step() {
        None => {},
        Some(ma) => {
            lemma_flush_counts(ma);
            let (p, mb) = ma.key_len_step();
            if p == Progress::Done {
                lemma_flush_counts(mb);
            }
        },
    }
}

/// Reading the value part keeps where the buffer ends in the stored area,
/// takes no region number beyond its bytes, and keeps a found flag at the
/// front.
proof fn lemma_value_step_counts(m: ReaderModel)
    requires
        m.read_end() <= usize::MAX,
        m.index_room() < usize::MAX,
        m.flag_at_front(),
    ensures
        m.value_step().1.read_end() == m.read_end(),
        m.value_step().1.index_room() <= m.index_room(),
        m.value_step().1.flag_at_front(),
{
    lemma_flush_counts(m);
}

/// One step of reading keeps where the buffer ends in the stored area, takes
/// no region number beyond its bytes, and keeps a found flag at the front;
/// a record it gives starts at the front of the buffer.
proof fn lemma_read_step_counts(m: ReaderModel)
    requires
        m.read_end() <= usize::MAX,
        m.index_room() < usize::MAX,
        m.flag_at_front(),
    ensures
        m.read_step().1.read_end() == m.read_end(),
        m.read_step().1.index_room() <= m.index_room(),
        m.read_step().1.flag_at_front(),
        m.read_step().0 matches Some(p) ==> p.boundry.1.0 == 0,
{
    if !m.flag.0 {
        match first_occurrence(m.buffer, flag_pattern(), m.buffer_cursor as int) {
            Some(l) => {
                lemma_first_occurrence(m.buffer, flag_pattern(), m.buffer_cursor as int);
                let m0 = ReaderModel { no_flag_in_buffer: false, ..m };
                lemma_consume_counts(m0, l);
            },
            None => {},
        }
    }
    match m.flag_step() {
        None => {},
        Some(m1) => {
            lemma_key_step_counts(m1);
            let (kp, m2) = if m1.flag.0 && !m1.key.0 {
                m1.key_step()
            } else {
                (Progress::Done, m1)
            };
            if kp == Progress::Done {
                lemma_value_step_counts(m2);
            }
            assert(m1.parts_step() == m.read_step());
        },
    }
}

/// Reading every whole record keeps where the buffer ends in the stored
/// area, takes no region number beyond the buffer's bytes, and keeps a found
/// flag at the front.
pub proof fn lemma_map_loop_counts(m: ReaderModel)
    requires
        m.read_end() <= usize::MAX,
        m.index_room() < usize::MAX,
        m.flag_at_front(),
    ensures
        m.map_loop().read_end() == m.read_end(),
        m.map_loop().index_room() <= m.index_room(),
        m.map_loop().flag_at_front(),
    decreases m.buffer.len(),
{
    lemma_read_step_counts(m);
    lemma_read_step(m);
    let (p, m1) = m.read_step();
    match p {
        Some(pv) => {
            let m2 = m1.take_record(pv);
            if m2.buffer.len() < m.buffer.len() {
                lemma_map_loop_counts(m2);
            }
        },
        None => {},
    }
}

} // verus!
