use crate::reader::model::{
    runs,
    first_occurrence, flag_pattern, found_values, lemma_first_occurrence, lemma_flag_restartable,
    lemma_read_step, lemma_take_record_space, occurs_at, restartable, Progress, ReaderModel,
};
use crate::reader::pointers::bytes_eq;
use crate::reader::pointers::{PointerMap, Span};
use crate::reader::space::{
    disjoint, empties_wf, free_positions, has_room, pointers_wf, regions_wf, span_positions, Region,
};
use std::collections::HashMap;
use vstd::prelude::*;
use vstd::std_specs::iter::IteratorSpec;

pub mod area;
pub mod chunks;
pub mod format;
pub mod key;
pub mod laws;
pub mod model;
pub mod pieces;
pub mod pointers;
pub mod space;
pub mod unhandled;
pub mod value;

verus! {

broadcast use vstd::std_specs::hash::group_hash_axioms;

/// Where a new record is to be written: inclusive positions.
#[derive(Debug, Clone, Copy)]
pub struct Write {
    pub start: usize,
    pub end: usize,
}

/// What a stretch of the mapped area holds.
#[derive(Debug, Clone, Copy, PartialEq, Eq, Structural)]
pub enum PointerType {
    Data,
    Corrupt,
    Empty,
}

/// A record found by the reader: its bounds, key and value, each as
/// `(map(start,end), buffer(start,end))`.
#[derive(Debug)]
pub struct Pointer {
    pub pointer_type: PointerType,
    pub start_on_map_cursor: usize,
    pub boundry: ((usize, usize), (usize, usize)),
    pub key: ((usize, usize), (usize, usize), Vec<u8>),
    pub value: ((usize, usize), (usize, usize)),
}

impl Clone for Pointer {
    /// A copy of the pointer, key bytes included.
    fn clone(&self) -> (r: Self)
        ensures
            r@ == self@,
    {
        let key = self.key.2.clone();
        proof {
            assert(key@ =~= self.key.2@);
        }
        Pointer {
            pointer_type: self.pointer_type,
            start_on_map_cursor: self.start_on_map_cursor,
            boundry: self.boundry,
            key: (self.key.0, self.key.1, key),
            value: self.value,
        }
    }
}

impl Pointer {
    /// A blank pointer, marked corrupt.
    pub fn new() -> (r: Pointer)
        ensures
            r.pointer_type == PointerType::Corrupt,
            r.start_on_map_cursor == 0,
            r.boundry == ((0usize, 0usize), (0usize, 0usize)),
            r.key.0 == (0usize, 0usize),
            r.key.1 == (0usize, 0usize),
            r.key.2@ == Seq::<u8>::empty(),
            r.value == ((0usize, 0usize), (0usize, 0usize)),
    {
        Pointer {
            pointer_type: PointerType::Corrupt,
            start_on_map_cursor: 0,
            boundry: ((0, 0), (0, 0)),
            key: ((0, 0), (0, 0), vec![]),
            value: ((0, 0), (0, 0)),
        }
    }

    /// Marks the pointer empty and forgets its key and value.
    pub fn clear(&mut self)
        ensures
            final(self).pointer_type == PointerType::Empty,
            final(self).start_on_map_cursor == old(self).start_on_map_cursor,
            final(self).boundry == old(self).boundry,
            final(self).key.0 == (0usize, 0usize),
            final(self).key.1 == (0usize, 0usize),
            final(self).key.2@ == Seq::<u8>::empty(),
            final(self).value == ((0usize, 0usize), (0usize, 0usize)),
    {
        self.pointer_type = PointerType::Empty;
        self.key = ((0, 0), (0, 0), vec![]);
        self.value = ((0, 0), (0, 0));
    }

    /// A pointer of type `pt` over `len` bytes that start at `map_cursor` in
    /// the mapped area and at `buffer_cursor` in the buffer.
    pub fn point(len: usize, map_cursor: usize, buffer_cursor: usize, pt: PointerType) -> (r: Pointer)
        requires
            1 <= map_cursor + len <= usize::MAX,
            1 <= buffer_cursor + len <= usize::MAX,
        ensures
            r.pointer_type == pt,
            r.start_on_map_cursor == map_cursor,
            r.boundry == ((map_cursor, (map_cursor + len - 1) as usize), (buffer_cursor, (
            buffer_cursor + len - 1) as usize)),
            r.key.0 == (0usize, 0usize),
            r.key.1 == (0usize, 0usize),
            r.key.2@ == Seq::<u8>::empty(),
            r.value == ((0usize, 0usize), (0usize, 0usize)),
    {
        let hold = Pointer::new();
        Pointer {
            pointer_type: pt,
            start_on_map_cursor: map_cursor,
            boundry: ((map_cursor, map_cursor + len - 1), (buffer_cursor, buffer_cursor + len - 1)),
            key: hold.key,
            value: hold.value,
        }
    }

    /// A data pointer for a record of `len` bytes that starts at `map_cursor`
    /// in the mapped area and spans `start..=end` in the buffer, with its key
    /// at `key_start..=key_end` and its value at `value_start..value_end` of the
    /// buffer (an empty key has `key_end == key_start - 1`).
    pub fn data(
        len: usize,
        map_cursor: usize,
        start: usize,
        end: usize,
        key_start: usize,
        key_end: usize,
        key: Vec<u8>,
        value_start: usize,
        value_end: usize,
    ) -> (r: Pointer)
        requires
            1 <= map_cursor + len <= usize::MAX,
            map_cursor + key_start <= usize::MAX,
            map_cursor + key_end <= usize::MAX,
            value_start <= value_end,
            1 <= map_cursor + value_end <= usize::MAX,
        ensures
            r.pointer_type == PointerType::Data,
            r.start_on_map_cursor == map_cursor,
            r.boundry == ((map_cursor, (map_cursor + len - 1) as usize), (start, end)),
            r.key.0 == ((map_cursor + key_start) as usize, (map_cursor + key_end) as usize),
            r.key.1 == (key_start, key_end),
            r.key.2 == key,
            r.value == (((map_cursor + value_start) as usize, (map_cursor + value_end - 1) as usize), (
            value_start, value_end)),
    {
        let value_len = value_end - value_start;
        Pointer {
            pointer_type: PointerType::Data,
            start_on_map_cursor: map_cursor,
            boundry: ((map_cursor, map_cursor + len - 1), (start, end)),
            key: (
                (map_cursor + key_start, map_cursor + key_end),
                (key_start, key_end),
                key,
            ),
            value: (
                (map_cursor + value_start, map_cursor + value_start + value_len - 1),
                (value_start, value_end),
            ),
        }
    }
}

/// Which part of a record the reader is looking for.
#[derive(Debug, Clone, Copy, PartialEq, Eq, Structural)]
pub enum ReaderFunc {
    Flag,
    Key,
    Value,
}

/// A streaming reader of records. It keeps the records it has found (by key),
/// the free regions of the mapped area (by number, start and end), the
/// corrupt regions, and the state of the record it is in the middle of.
#[derive(Debug)]
pub struct Reader {
    pub no_flag_in_buffer: bool,
    /// `<empty_index, (len, (start, end))>`
    pub empty_map: HashMap<usize, (usize, (usize, usize))>,
    /// `<start, empty_index>`
    pub empty_start: HashMap<usize, usize>,
    /// `<end, empty_index>`
    pub empty_end: HashMap<usize, usize>,
    pub empty_index: usize,
    /// `<key, (boundry(start,end), value(start,end))>`
    pub pointers: PointerMap,
    /// `(len, (start, end))`
    pub corrupt: Vec<(usize, (usize, usize))>,
    pub build_map: bool,
    pub to_find: Vec<Vec<u8>>,
    pub find_values: bool,
    pub get_values_controll: bool,
    pub values: Vec<(Vec<u8>, Vec<u8>)>,
    pub map_cursor: usize,
    pub buffer_cursor: usize,
    pub buffer: Vec<u8>,
    pub func: ReaderFunc,
    /// found, start, end
    pub flag: (bool, usize, usize),
    /// found, byte_len, len, (start, end), key
    pub key: (bool, u8, u64, (usize, usize), Vec<u8>),
    /// found, byte_len, len, (start, end)
    pub value: (bool, u8, u64, (usize, usize)),
    /// found, start, end
    pub end: (bool, usize, usize),
}

/// The number of some free region at least `total` bytes long, if there is one.
fn find_room(m: &HashMap<usize, (usize, (usize, usize))>, total: usize) -> (r: Option<usize>)
    ensures
        match r {
            Some(k) => m@.contains_key(k) && m@[k].0 >= total,
            None => !has_room(m@, total as int),
        },
{
    let ghost all = vstd::std_specs::hash::spec_hash_map_iter(m).remaining();
    let ghost mut n: int = 0;
    for kv in it: m.iter()
        invariant
            it.seq() == all,
            n == it.index(),
            forall|j| 0 <= j < n ==> (*all[j].1).0 < total,
    {
        let (k, v) = kv;
        if v.0 >= total {
            return Some(*k);
        }
        proof {
            n = n + 1;
        }
    }
    assert forall|k: usize| m@.contains_key(k) implies m@[k].0 < total by {
        assert(all.contains((&k, &m@[k])));
        let j = choose|j| 0 <= j < all.len() && all[j] == (&k, &m@[k]);
        assert((*all[j].1).0 < total);
    }
    None
}

impl Reader {
    /// The free-space bookkeeping and the records found agree with one
    /// another, and all of it lies below `limit`.
    pub open spec fn space_inv_at(&self, limit: int) -> bool {
        &&& self.pointers.wf()
        &&& self.model().space_ok(limit)
    }

    /// The free regions and the records found agree with one another and lie
    /// below `limit`; nothing is said of the region numbers.
    pub open spec fn regions_ok_at(&self, limit: int) -> bool {
        &&& self.pointers.wf()
        &&& regions_wf(self.empty_map@, self.empty_start@, self.empty_end@, limit)
        &&& pointers_wf(self.pointers@, self.empty_map@, limit)
    }

    /// The free-space bookkeeping and the records found agree with one
    /// another, and all of it lies in the area mapped so far.
    pub open spec fn space_inv(&self) -> bool {
        self.space_inv_at(self.map_cursor as int)
    }

    /// Everything but the free regions, the records found and the region counter is the same.
    pub open spec fn same_parse_state(a: Reader, b: Reader) -> bool {
        &&& a.no_flag_in_buffer == b.no_flag_in_buffer
        &&& a.corrupt == b.corrupt
        &&& a.build_map == b.build_map
        &&& a.to_find == b.to_find
        &&& a.find_values == b.find_values
        &&& a.get_values_controll == b.get_values_controll
        &&& a.values == b.values
        &&& a.buffer_cursor == b.buffer_cursor
        &&& a.buffer == b.buffer
        &&& a.func == b.func
        &&& a.flag == b.flag
        &&& a.key == b.key
        &&& a.value == b.value
        &&& a.end == b.end
    }

    /// `new` is `old` after a record for `key` with a value of `value_size`
    /// bytes was placed at the front of free region `i`.
    pub open spec fn filled_from(
        old: Reader,
        new: Reader,
        key: Seq<u8>,
        value_size: int,
        i: usize,
        w: Write,
    ) -> bool {
        let total = 39 + key.len() + value_size;
        let len = old.empty_map@[i].0;
        let s = old.empty_map@[i].1.0;
        let e = old.empty_map@[i].1.1;
        &&& len >= total
        &&& w.start == s
        &&& w.end == s + total - 1
        &&& new.pointers@ == old.pointers@.insert(
            key,
            (
                (s, (s + total - 1) as usize),
                ((s + 36 + key.len()) as usize, (s + 35 + key.len() + value_size) as usize),
            ),
        )
        &&& if len == total {
            &&& new.empty_map@ == old.empty_map@.remove(i)
            &&& new.empty_start@ == old.empty_start@.remove(s)
            &&& new.empty_end@ == old.empty_end@.remove(e)
        } else {
            &&& new.empty_map@ == old.empty_map@.insert(
                i,
                ((e - (s + total) + 1) as usize, ((s + total) as usize, e)),
            )
            &&& new.empty_start@ == old.empty_start@.remove(s).insert((s + total) as usize, i)
            &&& new.empty_end@ == old.empty_end@
        }
    }

    /// `new` is `old` after the record of `key` was dropped and its span
    /// joined to the free region that ends just before it and the one that
    /// starts just after it, where there are such regions.
    pub open spec fn cleared(old: Reader, new: Reader, key: Seq<u8>) -> bool {
        let ps = old.pointers@[key].0.0;
        let pe = old.pointers@[key].0.1;
        let em = old.empty_map@;
        let es = old.empty_start@;
        let ee = old.empty_end@;
        let prev = ps > 0 && ee.contains_key((ps - 1) as usize);
        let pi = ee[(ps - 1) as usize];
        let next = es.contains_key((pe + 1) as usize);
        let ni = es[(pe + 1) as usize];
        &&& new.pointers@ == old.pointers@.remove(key)
        &&& if prev && next {
            &&& new.empty_map@ == em.remove(ni).insert(
                pi,
                ((em[ni].1.1 + 1 - em[pi].1.0) as usize, (em[pi].1.0, em[ni].1.1)),
            )
            &&& new.empty_start@ == es.remove((pe + 1) as usize)
            &&& new.empty_end@ == ee.remove((ps - 1) as usize).insert(em[ni].1.1, pi)
            &&& new.empty_index == old.empty_index
        } else if prev {
            &&& new.empty_map@ == em.insert(pi, ((pe + 1 - em[pi].1.0) as usize, (em[pi].1.0, pe)))
            &&& new.empty_start@ == es
            &&& new.empty_end@ == ee.remove((ps - 1) as usize).insert(pe, pi)
            &&& new.empty_index == old.empty_index
        } else if next {
            &&& new.empty_map@ == em.insert(ni, ((em[ni].1.1 + 1 - ps) as usize, (ps, em[ni].1.1)))
            &&& new.empty_start@ == es.remove((pe + 1) as usize).insert(ps, ni)
            &&& new.empty_end@ == ee
            &&& new.empty_index == old.empty_index
        } else {
            &&& new.empty_map@ == em.insert(old.empty_index, ((pe + 1 - ps) as usize, (ps, pe)))
            &&& new.empty_start@ == es.insert(ps, old.empty_index)
            &&& new.empty_end@ == ee.insert(pe, old.empty_index)
            &&& new.empty_index == old.empty_index + 1
        }
    }

    /// `new` is `old` after `n` free bytes were added right after the mapped
    /// area: the free region that ends at `map_cursor - 1` grows by `n`, or a
    /// new one of `n` bytes starts at `map_cursor`; `map_cursor` stays.
    pub open spec fn expanded(old: Reader, new: Reader, n: int) -> bool {
        let mc = old.map_cursor;
        let em = old.empty_map@;
        let ee = old.empty_end@;
        let last = ee.contains_key((mc - 1) as usize);
        let li = ee[(mc - 1) as usize];
        &&& new.map_cursor == mc
        &&& new.pointers@ == old.pointers@
        &&& if last {
            &&& new.empty_map@ == em.insert(
                li,
                ((mc + n - em[li].1.0) as usize, (em[li].1.0, (mc + n - 1) as usize)),
            )
            &&& new.empty_start@ == old.empty_start@
            &&& new.empty_end@ == ee.remove((mc - 1) as usize).insert((mc + n - 1) as usize, li)
            &&& new.empty_index == old.empty_index
        } else {
            &&& new.empty_map@ == em.insert(old.empty_index, (n as usize, (mc, (mc + n - 1) as usize)))
            &&& new.empty_start@ == old.empty_start@.insert(mc, old.empty_index)
            &&& new.empty_end@ == ee.insert((mc + n - 1) as usize, old.empty_index)
            &&& new.empty_index == old.empty_index + 1
        }
    }

    /// Collect the values of keys asked for with `find_key`.
    pub fn enable_find(&mut self)
        ensures
            *final(self) == (Reader { find_values: true, ..*old(self) }),
    {
        self.find_values = true;
    }

    /// Collect the values of all records (or stop doing so).
    pub fn get_values(&mut self, b: bool)
        ensures
            *final(self) == (Reader { get_values_controll: b, ..*old(self) }),
    {
        self.get_values_controll = b;
    }

    /// Adds `i` to the keys whose values are collected.
    pub fn find_key(&mut self, i: Vec<u8>)
        ensures
            *final(self) == (Reader { to_find: final(self).to_find, ..*old(self) }),
            final(self).to_find@ == old(self).to_find@.push(i),
    {
        self.to_find.push(i);
    }

    /// A reader at the start of an empty area, with nothing found yet.
    pub fn new() -> (r: Reader)
        ensures
            r.fresh(),
            r.inv(),
    {
        Reader {
            no_flag_in_buffer: false,
            pointers: PointerMap::new(),
            empty_map: HashMap::new(),
            empty_start: HashMap::new(),
            empty_end: HashMap::new(),
            empty_index: 1,
            corrupt: vec![],
            build_map: true,
            to_find: Vec::new(),
            find_values: false,
            get_values_controll: false,
            values: Vec::new(),
            map_cursor: 0,
            buffer_cursor: 0,
            buffer: vec![],
            func: ReaderFunc::Flag,
            flag: (false, 0, 0),
            key: (false, 0, 0, (0, 0), vec![]),
            value: (false, 0, 0, (0, 0)),
            end: (false, 0, 0),
        }
    }

    /// As `new`, with room reserved for `map_capacity` records and a buffer
    /// of `buffer_capacity` bytes.
    pub fn with_capacity(map_capacity: usize, buffer_capacity: usize) -> (r: Reader)
        ensures
            r.fresh(),
            r.inv(),
    {
        Reader {
            no_flag_in_buffer: false,
            pointers: PointerMap::with_capacity(map_capacity),
            empty_map: HashMap::new(),
            empty_start: HashMap::new(),
            empty_end: HashMap::new(),
            empty_index: 1,
            corrupt: vec![],
            build_map: true,
            to_find: Vec::new(),
            find_values: false,
            get_values_controll: false,
            values: Vec::new(),
            map_cursor: 0,
            buffer_cursor: 0,
            buffer: Vec::with_capacity(buffer_capacity),
            func: ReaderFunc::Flag,
            flag: (false, 0, 0),
            key: (false, 0, 0, (0, 0), vec![]),
            value: (false, 0, 0, (0, 0)),
            end: (false, 0, 0),
        }
    }

    /// The state of a reader just made: nothing read, nothing found, no free
    /// region, records kept by key, nothing asked for.
    pub open spec fn fresh(&self) -> bool {
        &&& self.no_flag_in_buffer == false
        &&& self.pointers.wf()
        &&& self.pointers@ == Map::<Seq<u8>, Span>::empty()
        &&& self.empty_map@ == Map::<usize, Region>::empty()
        &&& self.empty_start@ == Map::<usize, usize>::empty()
        &&& self.empty_end@ == Map::<usize, usize>::empty()
        &&& self.empty_index == 1
        &&& self.corrupt@ == Seq::<(usize, (usize, usize))>::empty()
        &&& self.build_map == true
        &&& self.to_find@ == Seq::<Vec<u8>>::empty()
        &&& self.find_values == false
        &&& self.get_values_controll == false
        &&& self.values@ == Seq::<(Vec<u8>, Vec<u8>)>::empty()
        &&& self.map_cursor == 0
        &&& self.buffer_cursor == 0
        &&& self.buffer@ == Seq::<u8>::empty()
        &&& self.func == ReaderFunc::Flag
        &&& self.flag == (false, 0usize, 0usize)
        &&& Self::key_reset(self.key)
        &&& self.key.4@ == Seq::<u8>::empty()
        &&& self.value == (false, 0u8, 0u64, (0usize, 0usize))
        &&& self.end == (false, 0usize, 0usize)
    }

    /// The key progress is back at its start (the collected key bytes aside).
    pub open spec fn key_reset(k: (bool, u8, u64, (usize, usize), Vec<u8>)) -> bool {
        k.0 == false && k.1 == 0 && k.2 == 0 && k.3 == (0usize, 0usize)
    }

    /// Positions up to `extra` bytes past the buffer, and as many more region
    /// numbers, still fit in a `usize`.
    pub open spec fn room_for(&self, extra: int) -> bool {
        &&& self.map_cursor + self.buffer@.len() + extra + 1 < usize::MAX
        &&& self.empty_index + self.buffer@.len() + extra + 1 < usize::MAX
    }

    /// The reader's invariant: sound bookkeeping, and room for the buffer's positions.
    pub open spec fn inv(&self) -> bool {
        &&& self.space_inv()
        &&& self.room_for(0)
    }

    /// Gives up on the buffer: all of it is classified as free or corrupt
    /// space and dropped, and the progress on the record is forgotten.
    pub fn flush(&mut self)
        requires
            old(self).inv(),
        ensures
            final(self).inv(),
            final(self).model() == old(self).model().flush(),
    {
        let len = self.buffer.len();
        consume(self, len);
        self.reset();
        proof {
            reveal(ReaderModel::flush);
        }
    }

    /// The span of the record for `key`.
    pub fn find(&self, key: &Vec<u8>) -> (r: Result<((usize, usize), (usize, usize)), ()>)
        requires
            self.pointers.wf(),
        ensures
            r == (if self.pointers@.contains_key(key@) {
                Ok::<Span, ()>(self.pointers@[key@])
            } else {
                Err::<Span, ()>(())
            }),
    {
        match self.pointers.get(key) {
            Some(v) => {
                return Ok(v);
            },
            None => {
                return Err(());
            },
        }
    }

    /// Forgets the progress on the record being read.
    pub fn reset(&mut self)
        ensures
            final(self).flag == (false, 0usize, 0usize),
            Self::key_reset(final(self).key),
            final(self).key.4 == old(self).key.4,
            final(self).value == (false, 0u8, 0u64, (0usize, 0usize)),
            final(self).end == (false, 0usize, 0usize),
            *final(self) == (Reader {
                flag: final(self).flag,
                key: final(self).key,
                value: final(self).value,
                end: final(self).end,
                ..*old(self)
            }),
    {
        self.flag.0 = false;
        self.flag.1 = 0;
        self.flag.2 = 0;
        self.key.0 = false;
        self.key.1 = 0;
        self.key.2 = 0;
        self.key.3 = (0, 0);
        self.value.0 = false;
        self.value.1 = 0;
        self.value.2 = 0;
        self.value.3 = (0, 0);
        self.end.0 = false;
        self.end.1 = 0;
        self.end.2 = 0;
    }

    /// Drops the record of `key` and gives its span back to the free space,
    /// joined to the free regions right before and after it.
    pub fn clear(&mut self, key: &Vec<u8>) -> (r: Result<(), &'static str>)
        requires
            old(self).regions_ok_at(usize::MAX as int),
            !old(self).empty_map@.contains_key(old(self).empty_index),
            old(self).empty_index + 1 < usize::MAX,
        ensures
            final(self).regions_ok_at(usize::MAX as int),
            old(self).space_inv_at(usize::MAX as int) ==> final(self).space_inv_at(usize::MAX as int),
            old(self).inv() && old(self).room_for(1) ==> final(self).inv(),
            Self::same_parse_state(*old(self), *final(self)),
            final(self).map_cursor == old(self).map_cursor,
            r is Ok,
            !old(self).pointers@.contains_key(key@) ==> *final(self) == *old(self),
            old(self).pointers@.contains_key(key@) ==> Self::cleared(*old(self), *final(self), key@),
    {
        if !self.pointers.contains_key(key) {
            return Ok(());
        }
        let ghost old_self = *old(self);
        let pointer: Span;
        match self.pointers.remove(key) {
            Some(v) => {
                pointer = v;
            },
            None => {
                return Err("failed-get-pointer");
            },
        }
        proof {
            assert(old_self.pointers@.contains_key(key@));
            assert(pointer.0.1 < usize::MAX);
        }

        let mut previous_empty_index: usize = 0;
        let mut previous_empty_found = false;
        if pointer.0.0 > 0 {
            match self.empty_end.get(&(pointer.0.0 - 1)) {
                Some(v) => {
                    previous_empty_index = *v;
                    previous_empty_found = true;
                },
                None => {},
            }
        }

        let mut next_empty_index: usize = 0;
        let mut next_empty_found = false;
        match self.empty_start.get(&(pointer.0.1 + 1)) {
            Some(v) => {
                next_empty_index = *v;
                next_empty_found = true;
            },
            None => {},
        }

        proof {
            if previous_empty_found {
                assert(old_self.empty_end@.contains_key((pointer.0.0 - 1) as usize));
                assert(old_self.empty_map@.contains_key(previous_empty_index));
                assert(old_self.empty_map@[previous_empty_index].1.1 == pointer.0.0 - 1);
            }
            if next_empty_found {
                assert(old_self.empty_start@.contains_key((pointer.0.1 + 1) as usize));
                assert(old_self.empty_map@.contains_key(next_empty_index));
                assert(old_self.empty_map@[next_empty_index].1.0 == pointer.0.1 + 1);
                assert(disjoint(old_self.pointers@[key@].0, old_self.empty_map@[next_empty_index].1));
            }
            if previous_empty_found && next_empty_found {
                assert(previous_empty_index != next_empty_index);
            }
        }
        if previous_empty_found {
            let prev: Region;
            match self.empty_map.get(&previous_empty_index) {
                Some(e) => {
                    prev = *e;
                },
                None => {
                    return Err("failed-get-previous");
                },
            }
            let mut next_empty_end: usize = 0;
            self.empty_end.remove(&prev.1.1);
            if next_empty_found {
                let next: Region;
                match self.empty_map.get(&next_empty_index) {
                    Some(e) => {
                        next = *e;
                    },
                    None => {
                        return Err("failed-get-previous");
                    },
                }
                next_empty_end = next.1.1;
                self.empty_start.remove(&next.1.0);
                self.empty_end.remove(&next.1.1);
            }
            let new_end = if next_empty_found {
                next_empty_end
            } else {
                pointer.0.1
            };
            self.empty_map.insert(previous_empty_index, (new_end + 1 - prev.1.0, (prev.1.0, new_end)));
            self.empty_end.insert(new_end, previous_empty_index);
            if next_empty_found {
                self.empty_map.remove(&next_empty_index);
            }
        } else if next_empty_found {
            let next: Region;
            match self.empty_map.get(&next_empty_index) {
                Some(e) => {
                    next = *e;
                },
                None => {
                    return Err("failed-get-previous");
                },
            }
            self.empty_start.remove(&next.1.0);
            self.empty_map.insert(next_empty_index, (next.1.1 + 1 - pointer.0.0, (pointer.0.0, next.1.1)));
            self.empty_start.insert(pointer.0.0, next_empty_index);
        } else if !next_empty_found && !previous_empty_found {
            self.empty_start.insert(pointer.0.0, self.empty_index);
            self.empty_end.insert(pointer.0.1, self.empty_index);
            self.empty_map.insert(self.empty_index, (pointer.0.1 + 1 - pointer.0.0, pointer.0));
            self.empty_index += 1;
        } else {
            return Err("unhandled_error");
        }
        proof {
            let em = old_self.empty_map@;
            let ee = old_self.empty_end@;
            if previous_empty_found && next_empty_found {
                let pi = previous_empty_index;
                let ni = next_empty_index;
                assert(self.empty_map@ =~= em.remove(ni).insert(
                    pi,
                    ((em[ni].1.1 + 1 - em[pi].1.0) as usize, (em[pi].1.0, em[ni].1.1)),
                ));
                assert(self.empty_end@ =~= ee.remove((pointer.0.0 - 1) as usize).insert(em[ni].1.1, pi));
            }
            assert(Self::cleared(old_self, *self, key@));
            lemma_clear_keeps_space_inv(old_self, *self, key@, usize::MAX as int);
            if old_self.inv() {
                lemma_clear_keeps_space_inv(old_self, *self, key@, old_self.map_cursor as int);
            }
        }
        return Ok(());
    }

    /// Adds `num_of_bytes` free bytes right after the mapped area: the free
    /// region that ends at the last mapped position grows, or a new region
    /// starts at `map_cursor`. `map_cursor` itself stays where it is, so the
    /// added bytes lie past it; when everything lay in the mapped area before,
    /// everything lies in the area and the added bytes after.
    pub fn expand(&mut self, num_of_bytes: usize) -> (r: Result<(), &'static str>)
        requires
            old(self).regions_ok_at(usize::MAX as int),
            old(self).map_cursor >= 1,
            old(self).room_for(num_of_bytes + 1),
        ensures
            old(self).space_inv() ==> final(self).space_inv_at(
                old(self).map_cursor + num_of_bytes,
            ),
            old(self).space_inv() ==> final(self).regions_ok_at(usize::MAX as int),
            Self::same_parse_state(*old(self), *final(self)),
            r is Ok,
            Self::expanded(*old(self), *final(self), num_of_bytes as int),
    {
        let ghost old_self = *old(self);
        let mut empty_found = false;
        let mut empty_index: usize = 0;
        match self.empty_end.get(&(self.map_cursor - 1)) {
            Some(v) => {
                empty_index = *v;
                empty_found = true;
            },
            None => {},
        }

        if empty_found {
            let e: Region;
            match self.empty_map.get(&empty_index) {
                Some(v) => {
                    e = *v;
                },
                None => {
                    return Err("failed-edit-last-empty_section");
                },
            }
            let new_end = e.1.1 + num_of_bytes;
            self.empty_map.insert(empty_index, (new_end + 1 - e.1.0, (e.1.0, new_end)));
            self.empty_end.remove(&e.1.1);
            self.empty_end.insert(new_end, empty_index);
        } else {
            self.empty_map.insert(
                self.empty_index,
                (num_of_bytes, (self.map_cursor, self.map_cursor + num_of_bytes - 1)),
            );
            self.empty_end.insert(self.map_cursor + num_of_bytes - 1, self.empty_index);
            self.empty_start.insert(self.map_cursor, self.empty_index);
            self.empty_index += 1;
        }
        proof {
            assert(Self::expanded(old_self, *self, num_of_bytes as int));
            if old_self.space_inv() {
                lemma_expand_keeps_space_inv(old_self, *self, num_of_bytes as int);
                crate::reader::model::lemma_space_ok_grow(
                    self.model(),
                    old_self.map_cursor + num_of_bytes,
                    usize::MAX as int,
                );
            }
        }
        return Ok(());
    }

    /// Adds `buffer` to the bytes being read and reads and keeps every whole
    /// record now in them (see `ReaderModel::map_loop`); bytes that cannot
    /// start a record are classified as free or corrupt space as the records
    /// are found, and the rest waits for more bytes.
    pub fn map(&mut self, buffer: &mut Vec<u8>)
        requires
            old(self).inv(),
            old(self).room_for(old(buffer)@.len() as int),
        ensures
            final(self).inv(),
            final(buffer)@ == Seq::<u8>::empty(),
            final(self).model() == old(self).model().appended(old(buffer)@).map_loop(),
            old(self).model().flag_at_front() ==> {
                &&& final(self).map_cursor + final(self).buffer@.len() == old(self).map_cursor
                    + old(self).buffer@.len() + old(buffer)@.len()
                &&& final(self).empty_index + final(self).buffer@.len() <= old(self).empty_index
                    + old(self).buffer@.len() + old(buffer)@.len()
                &&& final(self).model().flag_at_front()
            },
    {
        let ghost start = self.model().appended(buffer@);
        proof {
            if start.flag_at_front() {
                crate::reader::chunks::lemma_map_loop_counts(start);
            }
        }
        let ghost target = self.model().appended(buffer@).map_loop();
        loop
            invariant_except_break
                self.model().appended(buffer@).map_loop() == target,
                self.room_for(buffer@.len() as int),
            invariant
                self.inv(),
            ensures
                self.model() == target,
                buffer@ == Seq::<u8>::empty(),
            decreases self.buffer@.len() + buffer@.len(),
        {
            let ghost m = self.model().appended(buffer@);
            proof {
                lemma_read_step(m);
            }
            match read(self, buffer) {
                Ok(v) => {
                    let ghost m1 = self.model();
                    take_record(self, v);
                    proof {
                        assert(self.model().appended(buffer@) =~= self.model());
                        assert(self.model() == m1.take_record(v@));
                        assert(m.map_loop() == self.model().map_loop());
                    }
                },
                Err(_) => {
                    break;
                },
            }
        }
    }

    /// The end of the input: reads the records left in the buffer, then
    /// classifies whatever bytes remain as free or corrupt space (see
    /// `ReaderModel::end_of_input`).
    pub fn end(&mut self) -> (r: Result<(), &'static str>)
        requires
            old(self).inv(),
        ensures
            final(self).inv(),
            r is Ok,
            final(self).model() == old(self).model().end_of_input(),
    {
        if self.buffer.len() == 0 {
            return Ok(());
        }
        let mut rest: Vec<u8> = vec![];
        proof {
            assert(self.model().appended(rest@) =~= self.model());
        }
        self.map(&mut rest);
        if self.buffer.len() > 0 {
            let len = self.buffer.len();
            consume(self, len);
        }
        return Ok(());
    }

    /// Places a record for `key` with a value of `value_size` bytes in the
    /// first free region found that is large enough, and returns where it is to
    /// be written; `Err("full")` when no free region is large enough.
    pub fn fill(&mut self, key: Vec<u8>, value_size: usize) -> (r: Result<Write, &'static str>)
        requires
            old(self).regions_ok_at(usize::MAX as int),
            39 + key@.len() + value_size <= usize::MAX,
        ensures
            final(self).regions_ok_at(usize::MAX as int),
            old(self).space_inv_at(usize::MAX as int) ==> final(self).space_inv_at(usize::MAX as int),
            old(self).inv() ==> final(self).inv(),
            Self::same_parse_state(*old(self), *final(self)),
            final(self).map_cursor == old(self).map_cursor,
            final(self).empty_index == old(self).empty_index,
            match r {
                Err(e) => {
                    &&& e == "full"
                    &&& !has_room(old(self).empty_map@, 39 + key@.len() + value_size)
                    &&& *final(self) == *old(self)
                },
                Ok(w) => exists|i: usize|
                    #[trigger] old(self).empty_map@.contains_key(i) && Self::filled_from(
                        *old(self),
                        *final(self),
                        key@,
                        value_size as int,
                        i,
                        w,
                    ),
            },
    {
        let total_len = 39 + key.len() + value_size;
        let value_start_at = 36 + key.len();

        let empty_index: usize;
        match find_room(&self.empty_map, total_len) {
            Some(i) => {
                empty_index = i;
            },
            None => {
                return Err("full");
            },
        }

        let empty: Region;
        match self.empty_map.get(&empty_index) {
            Some(e) => {
                empty = *e;
            },
            None => {
                return Err("failed-edit-empty");
            },
        }
        let value_start = empty.1.0 + value_start_at;
        let value_end = empty.1.0 + 36 + key.len() + value_size - 1;
        let pointer_start = empty.1.0;
        let pointer_end = empty.1.0 + total_len - 1;

        let ghost k = key@;
        let ghost old_self = *old(self);
        self.pointers.insert(key, ((pointer_start, pointer_end), (value_start, value_end)));

        if total_len == empty.0 {
            self.empty_start.remove(&empty.1.0);
            self.empty_end.remove(&empty.1.1);
            self.empty_map.remove(&empty_index);
        } else {
            self.empty_start.remove(&empty.1.0);
            let new_start = empty.1.0 + total_len;
            self.empty_map.insert(empty_index, (empty.1.1 - new_start + 1, (new_start, empty.1.1)));
            self.empty_start.insert(new_start, empty_index);
        }
        proof {
            assert(Self::filled_from(
                old_self,
                *self,
                k,
                value_size as int,
                empty_index,
                Write { start: pointer_start, end: pointer_end },
            ));
            lemma_fill_keeps_space_inv(old_self, *self, k, value_size as int, empty_index, Write { start: pointer_start, end: pointer_end }, usize::MAX as int);
            if old_self.inv() {
                lemma_fill_keeps_space_inv(old_self, *self, k, value_size as int, empty_index, Write { start: pointer_start, end: pointer_end }, old_self.map_cursor as int);
            }
        }
        Ok(Write { start: pointer_start, end: pointer_end })
    }
}

/// One step of reading (see `ReaderModel::read_step`), after `buffer` is moved
/// to the end of the reader's buffer: the pointer to the next whole record,
/// or an error that says what is still missing.
#[verifier::rlimit(60)]
#[verifier::spinoff_prover]
fn read(reader: &mut Reader, buffer: &mut Vec<u8>) -> (r: Result<Pointer, &'static str>)
    requires
        old(reader).inv(),
        old(reader).room_for(old(buffer)@.len() as int),
    ensures
        final(reader).inv(),
        final(buffer)@ == Seq::<u8>::empty(),
        final(reader).model() == old(reader).model().appended(old(buffer)@).read_step().1,
        match r {
            Ok(p) => old(reader).model().appended(old(buffer)@).read_step().0 == Some(p@),
            Err(_) => old(reader).model().appended(old(buffer)@).read_step().0 is None,
        },
{
    let ghost m00 = old(reader).model().appended(old(buffer)@);
    if buffer.len() > 0 {
        reader.buffer.append(buffer);
    }
    proof {
        assert(reader.model() == m00);
    }
    if !find_flag(reader) {
        return Err("not_found-flag");
    }
    read_parts(reader)
}

/// After the start flag (see `ReaderModel::parts_step`): reads the key part,
/// the value part, and gives the pointer when the whole record is there.
fn read_parts(reader: &mut Reader) -> (r: Result<Pointer, &'static str>)
    requires
        old(reader).inv(),
    ensures
        final(reader).inv(),
        final(reader).model() == old(reader).model().parts_step().1,
        match r {
            Ok(p) => old(reader).model().parts_step().0 == Some(p@),
            Err(_) => old(reader).model().parts_step().0 is None,
        },
{
    if reader.flag.0 == true && reader.key.0 == false {
        match key::init(reader) {
            Ok(_) => {},
            Err(_) => {
                return Err("not_found-key");
            },
        }
    }
    if reader.flag.0 == true && reader.key.0 == true && reader.value.0 == false {
        match value::init(reader) {
            Ok(_) => {},
            Err(_) => {
                return Err("not_found-value");
            },
        }
    }
    match build_record(reader) {
        Some(build) => {
            return Ok(build);
        },
        None => {},
    }
    return Err("no_error");
}

/// The pointer to the record whose parts were all read, when they fit; the
/// progress then starts over.
fn build_record(reader: &mut Reader) -> (r: Option<Pointer>)
    requires
        old(reader).inv(),
    ensures
        final(reader).inv(),
        final(reader).model() == old(reader).model().build_step().1,
        match r {
            Some(p) => old(reader).model().build_step().0 == Some(p@),
            None => old(reader).model().build_step().0 is None,
        },
{
    if reader.flag.0 == true && reader.key.0 == true && reader.value.0 == true && reader.end.0
        == true {
        let mc = reader.map_cursor;
        if reader.flag.1 <= reader.end.2 && reader.end.2 < reader.buffer.len() && reader.end.2
            - reader.flag.1 < usize::MAX - mc && reader.key.3.0 <= usize::MAX - mc
            && reader.key.3.1 <= usize::MAX - mc && reader.value.3.0 <= reader.value.3.1
            && reader.value.3.1 <= reader.end.2 + 1 && reader.value.3.1 <= usize::MAX - mc && (mc
            > 0 || reader.value.3.1 > 0) {
            let ghost k4 = reader.key.4@;
            let key = reader.key.4.split_off(0);
            proof {
                assert(key@ =~= k4);
                assert(reader.key.4@ =~= Seq::<u8>::empty());
            }
            let build = Pointer::data(
                reader.end.2 - reader.flag.1 + 1,
                reader.map_cursor,
                reader.flag.1,
                reader.end.2,
                reader.key.3.0,
                reader.key.3.1,
                key,
                reader.value.3.0,
                reader.value.3.1,
            );
            reader.reset();
            return Some(build);
        }
    }
    None
}

/// Looks for the start flag (see `ReaderModel::flag_step`); `false` when
/// there is none yet.
fn find_flag(reader: &mut Reader) -> (found: bool)
    requires
        old(reader).inv(),
    ensures
        final(reader).inv(),
        found == old(reader).model().flag_step() is Some,
        found ==> old(reader).model().flag_step() == Some(final(reader).model()),
        !found ==> final(reader).model() == old(reader).model().flag_missed(),
{
    if reader.flag.0 == false {
        let pattern: Vec<u8> = vec![0, 1, 0];
        proof {
            assert(pattern@ =~= flag_pattern());
            lemma_flag_restartable();
        }
        match vector_in_vector(&reader.buffer, &pattern, reader.buffer_cursor) {
            Ok(l) => {
                reader.no_flag_in_buffer = false;
                if l.0 > 0 {
                    consume(reader, l.0);
                }
                reader.flag.0 = true;
                reader.flag.1 = reader.buffer_cursor;
                reader.flag.2 = reader.buffer_cursor + 2;
                reader.buffer_cursor = 3;
            },
            Err(_) => {
                if reader.buffer.len() > 6 {
                    reader.buffer_cursor = reader.buffer.len() - 5;
                } else {
                    reader.buffer_cursor = reader.buffer.len();
                }
                return false;
            },
        }
    }
    true
}

/// Keeps what the reader keeps of the record `v` just read (see
/// `ReaderModel::take_record`).
fn take_record(reader: &mut Reader, v: Pointer)
    requires
        old(reader).inv(),
        v.boundry.0.0 == old(reader).map_cursor,
        v.boundry.0.0 <= v.boundry.0.1,
        v.boundry.0.1 - v.boundry.0.0 <= v.boundry.1.1 < old(reader).buffer@.len(),
        v.value.1.0 <= v.value.1.1 <= v.boundry.1.1 + 1,
    ensures
        final(reader).inv(),
        final(reader).model() == old(reader).model().take_record(v@),
{
    let ghost m0 = reader.model();
    let ghost vv = v@;
    let pointer_len = v.boundry.0.1 - v.boundry.0.0 + 1;
    let new_buffer = reader.buffer.split_off(v.boundry.1.1 + 1);
    reader.buffer_cursor = 0;
    reader.map_cursor = reader.map_cursor + pointer_len;
    let ghost value = m0.buffer.subrange(v.value.1.0 as int, v.value.1.1 as int);
    let ghost mid = reader.model();
    let ghost p0 = reader.pointers;
    proof {
        assert(reader.buffer@ == m0.buffer.subrange(0, v.boundry.1.1 + 1));
        assert(reader.buffer@.subrange(v.value.1.0 as int, v.value.1.1 as int) =~= value);
    }
    if reader.find_values && !reader.get_values_controll {
        let mut j: usize = 0;
        while j < reader.to_find.len()
            invariant
                j <= reader.to_find@.len(),
                reader.to_find == old(reader).to_find,
                reader.model() == (ReaderModel { values: reader.model().values, ..mid }),
                reader.pointers == p0,
                reader.buffer@.subrange(v.value.1.0 as int, v.value.1.1 as int) == value,
                v.value.1.0 <= v.value.1.1 <= reader.buffer@.len(),
                vv == v@,
                value == m0.buffer.subrange(v.value.1.0 as int, v.value.1.1 as int),
                reader.model().values == m0.values + found_values(
                    m0.to_find.subrange(0, j as int),
                    vv.key.2,
                    value,
                ),
                m0.to_find == reader.to_find@.map_values(|t: Vec<u8>| t@),
            decreases reader.to_find@.len() - j,
        {
            let ghost before = reader.model().values;
            proof {
                assert(m0.to_find.subrange(0, j + 1).drop_last() =~= m0.to_find.subrange(0, j as int));
                assert(m0.to_find.subrange(0, j + 1).last() == reader.to_find@[j as int]@);
            }
            if bytes_eq(&reader.to_find[j], &v.key.2) {
                let collect_value = collect_bytes(
                    &reader.buffer,
                    v.value.1.0,
                    v.value.1.1 - v.value.1.0,
                );
                let k = v.key.2.clone();
                proof {
                    assert(k@ =~= v.key.2@);
                    assert(collect_value@ =~= value);
                }
                reader.values.push((k, collect_value));
                proof {
                    assert(reader.model().values =~= before + seq![(vv.key.2, value)]);
                }
            } else {
                proof {
                    assert(before + Seq::<(Seq<u8>, Seq<u8>)>::empty() =~= before);
                }
            }
            j = j + 1;
        }
        proof {
            assert(m0.to_find.subrange(0, j as int) =~= m0.to_find);
        }
    } else if reader.get_values_controll {
        let collect_value = collect_bytes(&reader.buffer, v.value.1.0, v.value.1.1 - v.value.1.0);
        let k = v.key.2.clone();
        proof {
            assert(k@ =~= v.key.2@);
            assert(collect_value@ =~= value);
        }
        reader.values.push((k, collect_value));
    }
    if reader.build_map {
        match v.pointer_type {
            PointerType::Data => {
                reader.pointers.insert(v.key.2, (v.boundry.0, v.value.0));
            },
            _ => {},
        }
    }
    reader.buffer = new_buffer;
    proof {
        assert(reader.model().values =~= m0.take_record(vv).values);
        assert(reader.model() == m0.take_record(vv));
        lemma_take_record_space(m0, vv);
    }
}

/// Where `v2` occurs in `v1` at or after `start_cursor`, as inclusive bounds;
/// the first such place when the first byte of `v2` does not come back before
/// its last position.
fn vector_in_vector(v1: &Vec<u8>, v2: &Vec<u8>, start_cursor: usize) -> (r: Result<(usize, usize), ()>)
    requires
        v2@.len() >= 2,
    ensures
        r matches Ok((s, e)) ==> start_cursor <= s && e == s + v2@.len() - 1 && occurs_at(
            v1@,
            v2@,
            s as int,
        ),
        restartable(v2@) ==> match r {
            Ok((s, _)) => first_occurrence(v1@, v2@, start_cursor as int) == Some(s as int),
            Err(_) => first_occurrence(v1@, v2@, start_cursor as int) is None,
        },
{
    let ghost a = v1@;
    let ghost b = v2@;
    let ghost l = b.len() as int;
    let mut v2_cursor: usize = 0;
    let mut found_some = false;
    let mut start_index: usize = 0;
    let mut n: usize = start_cursor;
    proof {
        lemma_first_occurrence(a, b, start_cursor as int);
    }
    while n < v1.len()
        invariant
            a == v1@,
            b == v2@,
            l == b.len() >= 2,
            start_cursor <= n || (n == start_cursor),
            n <= a.len() || n == start_cursor,
            found_some ==> {
                &&& 1 <= v2_cursor <= l - 1
                &&& start_index + v2_cursor == n
                &&& start_cursor <= start_index
                &&& a.subrange(start_index as int, n as int) == b.subrange(0, v2_cursor as int)
            },
            !found_some ==> v2_cursor == 0,
            restartable(b) ==> forall|p: int|
                start_cursor <= p < (if found_some {
                    start_index as int
                } else {
                    n as int
                }) ==> !#[trigger] occurs_at(a, b, p),
        decreases a.len() - n,
    {
        let i = v1[n];
        let ghost (f0, c0, s0) = (found_some, v2_cursor, start_index);
        if !found_some {
            if i == v2[0] {
                found_some = true;
                v2_cursor = 1;
                start_index = n;
                proof {
                    assert(a.subrange(n as int, n + 1) =~= b.subrange(0, 1));
                }
            } else {
                proof {
                    if restartable(b) {
                        assert forall|p: int| start_cursor <= p < n + 1 implies !#[trigger] occurs_at(a, b, p) by {
                            if p == n && occurs_at(a, b, p) {
                                assert(a.subrange(p, p + l)[0] == b[0]);
                            }
                        }
                    }
                }
            }
        } else {
            if i != v2[v2_cursor] {
                proof {
                    if restartable(b) {
                        assert forall|p: int| s0 <= p < n implies !#[trigger] occurs_at(a, b, p) by {
                            if occurs_at(a, b, p) {
                                assert(a.subrange(p, p + l)[0] == b[0]);
                                if p == s0 {
                                    assert(a.subrange(p, p + l)[c0 as int] == b[c0 as int]);
                                } else {
                                    assert(a.subrange(s0 as int, n as int)[p - s0] == b.subrange(0, c0 as int)[p - s0]);
                                    assert(b[p - s0] != b[0]);
                                }
                            }
                        }
                    }
                }
                if i == v2[0] {
                    found_some = true;
                    v2_cursor = 1;
                    start_index = n;
                    proof {
                        assert(a.subrange(n as int, n + 1) =~= b.subrange(0, 1));
                    }
                } else {
                    found_some = false;
                    v2_cursor = 0;
                    proof {
                        if restartable(b) {
                            assert forall|p: int| start_cursor <= p < n + 1 implies !#[trigger] occurs_at(a, b, p) by {
                                if p == n && occurs_at(a, b, p) {
                                    assert(a.subrange(p, p + l)[0] == b[0]);
                                }
                            }
                        }
                    }
                }
            } else {
                proof {
                    assert(a.subrange(s0 as int, n + 1) =~= b.subrange(0, c0 + 1));
                }
                if v2_cursor == v2.len() - 1 {
                    proof {
                        assert(b.subrange(0, l) =~= b);
                        assert(occurs_at(a, b, s0 as int));
                        if restartable(b) {
                            lemma_first_occurrence(a, b, start_cursor as int);
                            let q = first_occurrence(a, b, start_cursor as int);
                            assert(q == Some(s0 as int));
                        }
                    }
                    return Ok((start_index, n));
                } else {
                    v2_cursor += 1;
                }
            }
        }
        n += 1;
    }
    proof {
        if restartable(b) {
            assert forall|p: int| start_cursor <= p implies !#[trigger] occurs_at(a, b, p) by {
                if occurs_at(a, b, p) {
                    if found_some {
                        if p == start_index {
                        } else if p > start_index && p < n {
                            assert(a.subrange(p, p + l)[0] == b[0]);
                            assert(a.subrange(start_index as int, n as int)[p - start_index] == b.subrange(
                                0,
                                v2_cursor as int,
                            )[p - start_index]);
                            assert(b[p - start_index] != b[0]);
                        }
                    }
                }
            }
            lemma_first_occurrence(a, b, start_cursor as int);
            if first_occurrence(a, b, start_cursor as int) is Some {
                let q = first_occurrence(a, b, start_cursor as int)->0;
                assert(occurs_at(a, b, q));
            }
        }
    }
    Err(())
}

/// `buf[from..from + n]`.
pub(crate) fn collect_bytes(buf: &Vec<u8>, from: usize, n: usize) -> (r: Vec<u8>)
    requires
        from + n <= buf@.len(),
    ensures
        r@ == buf@.subrange(from as int, from + n),
{
    let mut r: Vec<u8> = Vec::new();
    let mut i: usize = from;
    let total = buf.len();
    assert(from + n <= total);
    let end = from + n;
    while i < end
        invariant
            from <= i <= end,
            end == from + n,
            end <= buf@.len(),
            r@ == buf@.subrange(from as int, i as int),
        decreases end - i,
    {
        r.push(buf[i]);
        i = i + 1;
        proof {
            assert(r@ =~= buf@.subrange(from as int, i as int));
        }
    }
    r
}

/// Classifies the first `len` buffer bytes as free or corrupt space and
/// drops them from the buffer; the mapped area advances past them.
fn consume(reader: &mut Reader, len: usize)
    requires
        old(reader).inv(),
        len <= old(reader).buffer@.len(),
    ensures
        final(reader).inv(),
        final(reader).model() == old(reader).model().consume(len as int),
{
    if len > 0 {
        let ghost m0 = reader.model();
        let ghost sub = m0.buffer.subrange(0, len as int);
        proof {
            crate::reader::model::lemma_runs_wf(sub);
            if m0.build_map {
                crate::reader::model::lemma_apply_runs(m0, runs(sub), m0.map_cursor as int, len as int);
            } else {
                crate::reader::model::lemma_space_ok_grow(m0, m0.map_cursor as int, m0.map_cursor + len);
            }
        }
        unhandled::classify(reader, 0, len - 1, reader.map_cursor);
        let rest = reader.buffer.split_off(len);
        reader.buffer = rest;
        reader.map_cursor = reader.map_cursor + len;
        reader.buffer_cursor = 0;
        proof {
            assert(reader.model() == m0.consume(len as int));
        }
    }
}

proof fn lemma_fill_keeps_space_inv(
    old: Reader,
    new: Reader,
    key: Seq<u8>,
    value_size: int,
    i: usize,
    w: Write,
    limit: int,
)
    requires
        limit <= usize::MAX,
        old.regions_ok_at(limit),
        new.pointers.wf(),
        old.empty_map@.contains_key(i),
        Reader::filled_from(old, new, key, value_size, i, w),
        new.empty_index == old.empty_index,
        new.map_cursor == old.map_cursor,
        value_size >= 0,
    ensures
        new.regions_ok_at(limit),
        old.space_inv_at(limit) ==> new.space_inv_at(limit),
{
    let em = old.empty_map@;
    let nem = new.empty_map@;
    let s = em[i].1.0;
    let e = em[i].1.1;
    let total = 39 + key.len() + value_size;
    assert forall|j: usize| #[trigger] nem.contains_key(j) implies em.contains_key(j) by {
    }
    assert forall|j: usize| #[trigger] nem.contains_key(j) implies {
        &&& crate::reader::space::region_ok(nem[j])
        &&& nem[j].1.1 < limit
        &&& new.empty_start@.contains_key(nem[j].1.0)
        &&& new.empty_start@[nem[j].1.0] == j
        &&& new.empty_end@.contains_key(nem[j].1.1)
        &&& new.empty_end@[nem[j].1.1] == j
    } by {
        if j != i {
            assert(disjoint(em[i].1, em[j].1));
        }
    }
    assert forall|st: usize| #[trigger] new.empty_start@.contains_key(st) implies nem.contains_key(
        new.empty_start@[st],
    ) && nem[new.empty_start@[st]].1.0 == st by {
        if old.empty_start@.contains_key(st) && st != s {
            let j = old.empty_start@[st];
            assert(em.contains_key(j));
        }
    }
    assert forall|en: usize| #[trigger] new.empty_end@.contains_key(en) implies nem.contains_key(
        new.empty_end@[en],
    ) && nem[new.empty_end@[en]].1.1 == en by {
        let j = old.empty_end@[en];
        assert(em.contains_key(j));
    }
    assert forall|a: usize, b: usize|
        #![trigger nem[a], nem[b]]
        nem.contains_key(a) && nem.contains_key(b) && a != b implies disjoint(nem[a].1, nem[b].1) by {
        assert(disjoint(em[a].1, em[b].1));
    }
    let pm = old.pointers@;
    let npm = new.pointers@;
    assert forall|k1: Seq<u8>, k2: Seq<u8>|
        #![trigger npm[k1], npm[k2]]
        npm.contains_key(k1) && npm.contains_key(k2) && k1 != k2 implies disjoint(npm[k1].0, npm[k2].0) by {
        if k1 == key {
            assert(disjoint(pm[k2].0, em[i].1));
        } else if k2 == key {
            assert(disjoint(pm[k1].0, em[i].1));
        }
    }
    assert forall|k: Seq<u8>, j: usize|
        #![trigger npm[k], nem[j]]
        npm.contains_key(k) && nem.contains_key(j) implies disjoint(npm[k].0, nem[j].1) by {
        if k == key {
            if j != i {
                assert(disjoint(em[i].1, em[j].1));
            }
        } else {
            assert(disjoint(pm[k].0, em[j].1));
        }
    }
}

proof fn lemma_clear_keeps_space_inv(old: Reader, new: Reader, key: Seq<u8>, limit: int)
    requires
        limit <= usize::MAX,
        old.regions_ok_at(limit),
        !old.empty_map@.contains_key(old.empty_index),
        new.pointers.wf(),
        old.pointers@.contains_key(key),
        Reader::cleared(old, new, key),
        new.map_cursor == old.map_cursor,
    ensures
        new.regions_ok_at(limit),
        old.space_inv_at(limit) ==> new.space_inv_at(limit),
{
    let em = old.empty_map@;
    let es = old.empty_start@;
    let ee = old.empty_end@;
    let nem = new.empty_map@;
    let nes = new.empty_start@;
    let nee = new.empty_end@;
    let pm = old.pointers@;
    let npm = new.pointers@;
    let ps = pm[key].0.0;
    let pe = pm[key].0.1;
    let prev = ps > 0 && ee.contains_key((ps - 1) as usize);
    let pi = ee[(ps - 1) as usize];
    let next = es.contains_key((pe + 1) as usize);
    let ni = es[(pe + 1) as usize];
    assert(pm[key].0.0 <= pm[key].0.1 < limit);
    if prev {
        assert(em.contains_key(pi));
        assert(crate::reader::space::region_ok(em[pi]) && em[pi].1.1 == ps - 1);
        assert(disjoint(pm[key].0, em[pi].1));
    }
    if next {
        assert(em.contains_key(ni));
        assert(crate::reader::space::region_ok(em[ni]) && em[ni].1.0 == pe + 1);
        assert(em[ni].1.1 < limit);
        assert(disjoint(pm[key].0, em[ni].1));
    }
    if prev && next {
        assert(pi != ni);
    }
    // The region that now holds the cleared span.
    let ci = if prev { pi } else if next { ni } else { old.empty_index };
    let cs = if prev { em[pi].1.0 } else { ps };
    let ce = if next { em[ni].1.1 } else { pe };
    assert(nem.contains_key(ci) && nem[ci].1 == (cs, ce));
    // Every other region is untouched and lies outside the merged span.
    assert forall|j: usize| em.contains_key(j) && j != ci && !(next && j == ni) implies nem.contains_key(j)
        && nem[j] == em[j] && disjoint(em[j].1, (cs, ce)) by {
        assert(disjoint(pm[key].0, em[j].1));
        if prev {
            assert(disjoint(em[pi].1, em[j].1));
        }
        if next {
            assert(disjoint(em[ni].1, em[j].1));
        }
    }
    if old.space_inv_at(limit) {
        assert forall|j: usize| #[trigger] nem.contains_key(j) implies 1 <= j < new.empty_index by {
            if j != ci {
                assert(em.contains_key(j));
            }
        }
    }
    assert forall|j: usize| #[trigger] nem.contains_key(j) implies {
        &&& crate::reader::space::region_ok(nem[j])
        &&& nem[j].1.1 < limit
        &&& nes.contains_key(nem[j].1.0)
        &&& nes[nem[j].1.0] == j
        &&& nee.contains_key(nem[j].1.1)
        &&& nee[nem[j].1.1] == j
    } by {
        if j != ci {
            assert(em.contains_key(j));
        }
    }
    assert forall|st: usize| #[trigger] nes.contains_key(st) implies nem.contains_key(nes[st])
        && nem[nes[st]].1.0 == st by {
        if st != cs {
            assert(es.contains_key(st));
            assert(em.contains_key(es[st]));
        }
    }
    assert forall|en: usize| #[trigger] nee.contains_key(en) implies nem.contains_key(nee[en])
        && nem[nee[en]].1.1 == en by {
        if en != ce {
            assert(ee.contains_key(en));
            assert(em.contains_key(ee[en]));
        }
    }
    assert forall|a: usize, b: usize|
        #![trigger nem[a], nem[b]]
        nem.contains_key(a) && nem.contains_key(b) && a != b implies disjoint(nem[a].1, nem[b].1) by {
        if a != ci && b != ci {
            assert(disjoint(em[a].1, em[b].1));
        }
    }
    assert forall|k1: Seq<u8>, k2: Seq<u8>|
        #![trigger npm[k1], npm[k2]]
        npm.contains_key(k1) && npm.contains_key(k2) && k1 != k2 implies disjoint(npm[k1].0, npm[k2].0) by {
        assert(disjoint(pm[k1].0, pm[k2].0));
    }
    assert forall|k: Seq<u8>, j: usize|
        #![trigger npm[k], nem[j]]
        npm.contains_key(k) && nem.contains_key(j) implies disjoint(npm[k].0, nem[j].1) by {
        assert(disjoint(pm[k].0, pm[key].0));
        if j == ci {
            if prev {
                assert(disjoint(pm[k].0, em[pi].1));
            }
            if next {
                assert(disjoint(pm[k].0, em[ni].1));
            }
        } else {
            assert(disjoint(pm[k].0, em[j].1));
        }
    }
}

proof fn lemma_expand_keeps_space_inv(old: Reader, new: Reader, n: int)
    requires
        old.space_inv(),
        new.pointers.wf(),
        old.map_cursor >= 1,
        n >= 0,
        old.map_cursor + n <= usize::MAX,
        Reader::expanded(old, new, n),
    ensures
        new.space_inv_at(old.map_cursor + n),
{
    let mc = old.map_cursor;
    let em = old.empty_map@;
    let es = old.empty_start@;
    let ee = old.empty_end@;
    let nem = new.empty_map@;
    let nes = new.empty_start@;
    let nee = new.empty_end@;
    let last = ee.contains_key((mc - 1) as usize);
    let li = ee[(mc - 1) as usize];
    let ci = if last { li } else { old.empty_index };
    if last {
        assert(em.contains_key(li));
    }
    assert forall|j: usize| #[trigger] nem.contains_key(j) implies {
        &&& 1 <= j < new.empty_index
        &&& crate::reader::space::region_ok(nem[j])
        &&& nem[j].1.1 < old.map_cursor + n
        &&& nes.contains_key(nem[j].1.0)
        &&& nes[nem[j].1.0] == j
        &&& nee.contains_key(nem[j].1.1)
        &&& nee[nem[j].1.1] == j
    } by {
        if j != ci {
            assert(em.contains_key(j));
            if last {
                assert(disjoint(em[li].1, em[j].1));
            }
        }
    }
    assert forall|st: usize| #[trigger] nes.contains_key(st) implies nem.contains_key(nes[st])
        && nem[nes[st]].1.0 == st by {
        if es.contains_key(st) {
            assert(em.contains_key(es[st]));
        }
    }
    assert forall|en: usize| #[trigger] nee.contains_key(en) implies nem.contains_key(nee[en])
        && nem[nee[en]].1.1 == en by {
        if en != (mc + n - 1) as usize {
            assert(ee.contains_key(en));
            assert(em.contains_key(ee[en]));
        }
    }
    assert forall|a: usize, b: usize|
        #![trigger nem[a], nem[b]]
        nem.contains_key(a) && nem.contains_key(b) && a != b implies disjoint(nem[a].1, nem[b].1) by {
        if a != ci && b != ci {
            assert(disjoint(em[a].1, em[b].1));
        } else if a == ci && last {
            assert(disjoint(em[li].1, em[b].1));
        } else if b == ci && last {
            assert(disjoint(em[a].1, em[li].1));
        }
    }
    let pm = old.pointers@;
    assert forall|k: Seq<u8>, j: usize|
        #![trigger pm[k], nem[j]]
        pm.contains_key(k) && nem.contains_key(j) implies disjoint(pm[k].0, nem[j].1) by {
        if j != ci {
            assert(disjoint(pm[k].0, em[j].1));
        } else if last {
            assert(disjoint(pm[k].0, em[li].1));
        }
    }
}

} // verus!
