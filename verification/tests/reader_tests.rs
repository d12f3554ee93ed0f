use rustque::parser::writer::init as write_record;
use rustque::reader::unhandled::{empty_counter, init as classify};
use rustque::reader::{Pointer, PointerType, Reader};

fn rec_5_78() -> Vec<u8> {
    vec![
        0, 1, 0, 8, 0, 2, 0, 0, 0, 0, 0, 0, 0, 0, 1, 0, 3, 0, 5, 0, 4, 0, 8, 0, 5, 0, 0, 0, 0, 0,
        0, 0, 0, 2, 0, 6, 0, 7, 8, 0, 7, 0,
    ]
}

#[test]
fn writer_encodes_one_record() {
    let r = write_record(vec![5], vec![7, 8]).unwrap();
    assert_eq!(r, rec_5_78());
    assert_eq!(r.len(), 39 + 1 + 2);
}

#[test]
fn writer_encodes_empty_key_and_value() {
    let r = write_record(vec![], vec![]).unwrap();
    assert_eq!(r.len(), 39);
    assert_eq!(&r[0..4], &[0, 1, 0, 8]);
    assert_eq!(&r[36..39], &[0, 7, 0]);
}

#[test]
fn map_reads_back_one_record() {
    let mut reader = Reader::new();
    let mut buf = write_record(vec![5], vec![7, 8]).unwrap();
    reader.map(&mut buf);
    assert!(buf.is_empty());
    assert_eq!(reader.end(), Ok(()));
    assert_eq!(reader.find(&vec![5]), Ok(((0, 41), (37, 38))));
    assert_eq!(reader.map_cursor, 42);
    assert!(reader.buffer.is_empty());
    assert!(reader.empty_map.is_empty());
    assert!(reader.corrupt.is_empty());
}

#[test]
fn map_reads_back_a_record_given_in_pieces() {
    let rec = write_record(vec![1, 2, 3, 4, 5, 6, 7, 8], vec![42; 20]).unwrap();
    let mut reader = Reader::new();
    for piece in [&rec[0..10], &rec[10..30], &rec[30..50], &rec[50..]] {
        let mut buf = piece.to_vec();
        reader.map(&mut buf);
    }
    assert_eq!(reader.end(), Ok(()));
    let l = 39 + 8 + 20;
    assert_eq!(reader.find(&vec![1, 2, 3, 4, 5, 6, 7, 8]), Ok(((0, l - 1), (44, 63))));
    assert_eq!(reader.map_cursor, l);
}

#[test]
fn a_start_flag_cut_in_a_short_first_piece_is_missed() {
    // with six bytes or fewer in the buffer and no whole start flag, the
    // search moves past all of them
    let rec = write_record(vec![1, 2, 3, 4, 5, 6, 7, 8], vec![42; 20]).unwrap();
    let mut reader = Reader::new();
    let mut first = rec[0..2].to_vec();
    reader.map(&mut first);
    assert_eq!(reader.buffer_cursor, 2);
    let mut rest = rec[2..].to_vec();
    reader.map(&mut rest);
    assert_eq!(reader.end(), Ok(()));
    assert_eq!(reader.find(&vec![1, 2, 3, 4, 5, 6, 7, 8]), Err(()));
}

#[test]
fn map_reads_records_around_free_and_corrupt_space() {
    let mut bytes = vec![1, 2, 3];
    bytes.extend(rec_5_78());
    bytes.extend(vec![0; 10]);
    bytes.extend(write_record(vec![6], vec![1]).unwrap());
    let mut reader = Reader::new();
    reader.map(&mut bytes);
    assert_eq!(reader.end(), Ok(()));
    assert_eq!(reader.corrupt, vec![(3, (0, 2))]);
    assert_eq!(reader.find(&vec![5]), Ok(((3, 44), (40, 41))));
    assert_eq!(reader.find(&vec![6]), Ok(((55, 95), (92, 92))));
    assert_eq!(reader.empty_map.len(), 1);
    assert_eq!(reader.empty_map.get(&1), Some(&(10, (45, 54))));
    assert_eq!(reader.empty_start.get(&45), Some(&1));
    assert_eq!(reader.empty_end.get(&54), Some(&1));
    assert_eq!(reader.map_cursor, 96);
}

#[test]
fn map_without_building_keeps_no_records() {
    let mut reader = Reader::new();
    reader.build_map = false;
    let mut buf = rec_5_78();
    reader.map(&mut buf);
    assert_eq!(reader.find(&vec![5]), Err(()));
    assert_eq!(reader.map_cursor, 42);
}

#[test]
fn get_values_collects_every_value() {
    let mut reader = Reader::new();
    reader.get_values(true);
    let mut buf = rec_5_78();
    buf.extend(write_record(vec![6], vec![1]).unwrap());
    reader.map(&mut buf);
    assert_eq!(reader.values, vec![(vec![5], vec![7, 8]), (vec![6], vec![1])]);
}

#[test]
fn find_key_collects_only_the_values_asked_for() {
    let mut reader = Reader::new();
    reader.enable_find();
    reader.find_key(vec![6]);
    let mut buf = rec_5_78();
    buf.extend(write_record(vec![6], vec![1]).unwrap());
    reader.map(&mut buf);
    assert_eq!(reader.values, vec![(vec![6], vec![1])]);
    assert_eq!(reader.to_find, vec![vec![6]]);
}

#[test]
fn a_broken_marker_gives_up_the_buffer() {
    let mut bytes = rec_5_78();
    bytes[5] = 9; // the marker after the key length width
    let mut reader = Reader::new();
    reader.map(&mut bytes);
    assert_eq!(reader.end(), Ok(()));
    assert_eq!(reader.find(&vec![5]), Err(()));
    assert_eq!(reader.map_cursor, 42);
    assert!(reader.buffer.is_empty());
}

#[test]
fn fill_reports_full_then_expand_makes_room() {
    let mut reader = Reader::new();
    let mut buf = rec_5_78();
    reader.map(&mut buf);
    reader.end().unwrap();
    assert_eq!(reader.fill(vec![9], 2).map(|w| (w.start, w.end)), Err("full"));
    assert_eq!(reader.expand(100), Ok(()));
    // the added bytes lie past the mapped area; map_cursor stays
    assert_eq!(reader.map_cursor, 42);
    assert_eq!(reader.empty_map.get(&1), Some(&(100, (42, 141))));
    let w = reader.fill(vec![9], 2).unwrap();
    assert_eq!((w.start, w.end), (42, 83));
    assert_eq!(reader.find(&vec![9]), Ok(((42, 83), (79, 80))));
    assert_eq!(reader.empty_map.get(&1), Some(&(58, (84, 141))));
    assert_eq!(reader.empty_start.get(&84), Some(&1));
    assert_eq!(reader.empty_start.get(&42), None);
}

#[test]
fn expand_grows_the_last_free_region() {
    let mut reader = Reader::new();
    let mut buf = rec_5_78();
    buf.extend(vec![0; 5]);
    reader.map(&mut buf);
    reader.end().unwrap();
    assert_eq!(reader.empty_map.get(&1), Some(&(5, (42, 46))));
    reader.expand(10).unwrap();
    assert_eq!(reader.empty_map.get(&1), Some(&(15, (42, 56))));
    assert_eq!(reader.empty_end.get(&56), Some(&1));
    assert_eq!(reader.empty_end.get(&46), None);
    assert_eq!(reader.map_cursor, 47);
}

#[test]
fn fill_uses_a_whole_region_when_it_fits_exactly() {
    let mut reader = Reader::new();
    let mut buf = rec_5_78();
    reader.map(&mut buf);
    reader.end().unwrap();
    reader.expand(40).unwrap();
    let w = reader.fill(vec![1], 0).unwrap();
    assert_eq!((w.start, w.end), (42, 81));
    assert!(reader.empty_map.is_empty());
    assert!(reader.empty_start.is_empty());
    assert!(reader.empty_end.is_empty());
}

#[test]
fn clear_joins_the_free_space_around_a_record() {
    let mut reader = Reader::new();
    let mut buf = rec_5_78();
    reader.map(&mut buf);
    reader.end().unwrap();
    reader.expand(100).unwrap();
    let w = reader.fill(vec![9], 2).unwrap();
    assert_eq!((w.start, w.end), (42, 83));
    // freeing the first record: no free space before it, free space after it
    // only once the second is gone
    assert_eq!(reader.clear(&vec![5]), Ok(()));
    assert_eq!(reader.find(&vec![5]), Err(()));
    assert_eq!(reader.empty_map.get(&2), Some(&(42, (0, 41))));
    assert_eq!(reader.clear(&vec![9]), Ok(()));
    assert_eq!(reader.empty_map.len(), 1);
    assert_eq!(reader.empty_map.get(&2), Some(&(142, (0, 141))));
    assert_eq!(reader.empty_end.get(&141), Some(&2));
    assert_eq!(reader.empty_start.get(&0), Some(&2));
    // clearing a key that is not there changes nothing
    assert_eq!(reader.clear(&vec![77]), Ok(()));
    assert_eq!(reader.empty_map.len(), 1);
}

#[test]
fn fill_then_clear_gives_the_space_back() {
    let mut reader = Reader::new();
    let mut buf = rec_5_78();
    reader.map(&mut buf);
    reader.end().unwrap();
    reader.expand(200).unwrap();
    let before = reader.empty_map.clone();
    reader.fill(vec![3, 3], 10).unwrap();
    assert_ne!(reader.empty_map, before);
    reader.clear(&vec![3, 3]).unwrap();
    assert_eq!(reader.empty_map, before);
    assert_eq!(reader.find(&vec![5]), Ok(((0, 41), (37, 38))));
}

#[test]
fn the_record_fill_places_is_read_back_there() {
    let mut reader = Reader::new();
    let mut buf = rec_5_78();
    reader.map(&mut buf);
    reader.end().unwrap();
    reader.expand(100).unwrap();
    let key = vec![1, 2, 3, 4, 5, 6, 7, 9];
    let value = vec![4, 4, 4];
    let w = reader.fill(key.clone(), value.len()).unwrap();
    let placed = reader.find(&key).unwrap();
    // lay the area out as it would be stored, and read it again
    let mut area = vec![0u8; 42 + 100];
    area[0..42].copy_from_slice(&rec_5_78());
    let rec = write_record(key.clone(), value.clone()).unwrap();
    assert_eq!(rec.len(), w.end - w.start + 1);
    area[w.start..=w.end].copy_from_slice(&rec);
    let mut again = Reader::new();
    again.map(&mut area);
    again.end().unwrap();
    assert_eq!(again.find(&key), Ok(placed));
    assert_eq!(again.find(&vec![5]), Ok(((0, 41), (37, 38))));
}

#[test]
fn flush_classifies_the_whole_buffer() {
    let mut reader = Reader::new();
    reader.buffer = vec![0, 0, 0, 4, 4];
    reader.flush();
    assert!(reader.buffer.is_empty());
    assert_eq!(reader.map_cursor, 5);
    assert_eq!(reader.empty_map.get(&1), Some(&(3, (0, 2))));
    assert_eq!(reader.corrupt, vec![(2, (3, 4))]);
}

#[test]
fn reset_forgets_the_progress() {
    let mut reader = Reader::new();
    reader.flag = (true, 1, 3);
    reader.key = (true, 8, 3, (1, 2), vec![1]);
    reader.value = (true, 8, 3, (1, 2));
    reader.end = (true, 1, 2);
    reader.reset();
    assert_eq!(reader.flag, (false, 0, 0));
    assert_eq!(reader.key, (false, 0, 0, (0, 0), vec![1]));
    assert_eq!(reader.value, (false, 0, 0, (0, 0)));
    assert_eq!(reader.end, (false, 0, 0));
}

#[test]
fn empty_counter_records_a_zero_stretch() {
    let mut reader = Reader::new();
    reader.buffer = vec![0, 0, 0, 0, 5];
    empty_counter(&mut reader);
    assert_eq!(reader.buffer_cursor, 3);
    assert_eq!(reader.empty_map.get(&1), Some(&(3, (0, 2))));
}

#[test]
fn empty_counter_ignores_two_zeros() {
    let mut reader = Reader::new();
    reader.buffer = vec![0, 0, 5];
    empty_counter(&mut reader);
    assert_eq!(reader.buffer_cursor, 0);
    assert!(reader.empty_map.is_empty());
}

#[test]
fn classify_splits_zero_and_corrupt_runs() {
    let mut reader = Reader::new();
    reader.buffer = vec![7, 0, 0, 9, 9, 0];
    classify(&mut reader, 0, 5);
    assert_eq!(reader.buffer_cursor, 6);
    assert_eq!(reader.corrupt, vec![(1, (0, 0)), (2, (3, 4))]);
    assert_eq!(reader.empty_map.get(&1), Some(&(2, (1, 2))));
    assert_eq!(reader.empty_map.get(&2), Some(&(1, (5, 5))));
}

#[test]
fn pointer_constructors() {
    let p = Pointer::new();
    assert!(matches!(p.pointer_type, PointerType::Corrupt));
    assert_eq!(p.boundry, ((0, 0), (0, 0)));
    let mut q = Pointer::point(5, 10, 2, PointerType::Empty);
    assert_eq!(q.start_on_map_cursor, 10);
    assert_eq!(q.boundry, ((10, 14), (2, 6)));
    q.clear();
    assert!(matches!(q.pointer_type, PointerType::Empty));
    let d = Pointer::data(42, 100, 0, 41, 18, 18, vec![5], 37, 39);
    assert!(matches!(d.pointer_type, PointerType::Data));
    assert_eq!(d.boundry, ((100, 141), (0, 41)));
    assert_eq!(d.key, ((118, 118), (18, 18), vec![5]));
    assert_eq!(d.value, ((137, 138), (37, 39)));
}

#[test]
fn records_in_pieces_cut_between_records_read_as_at_once() {
    let a = write_record(vec![1; 8], vec![5; 7]).unwrap();
    let b = write_record(vec![2; 8], vec![6; 3]).unwrap();
    let mut whole = Reader::new();
    let mut both = a.clone();
    both.extend(b.clone());
    whole.map(&mut both);
    let mut pieces = Reader::new();
    let mut first = a.clone();
    pieces.map(&mut first);
    let mut second = b.clone();
    pieces.map(&mut second);
    assert_eq!(whole.find(&vec![1; 8]), pieces.find(&vec![1; 8]));
    assert_eq!(whole.find(&vec![2; 8]), pieces.find(&vec![2; 8]));
    assert_eq!(pieces.find(&vec![2; 8]), Ok(((54, 103), (98, 100))));
    assert_eq!(whole.map_cursor, pieces.map_cursor);
    assert!(pieces.buffer.is_empty());
}

#[test]
fn a_record_cut_anywhere_after_its_flag_reads_as_at_once() {
    let key = vec![3, 1, 4, 1, 5, 9, 2, 6];
    let value = vec![7, 7, 0, 7];
    let rec = write_record(key.clone(), value.clone()).unwrap();
    let l = rec.len();
    assert_eq!(l, 39 + 8 + 4);
    let mut whole = Reader::new();
    whole.get_values(true);
    whole.map(&mut rec.clone());
    assert_eq!(whole.find(&key), Ok(((0, l - 1), (44, l - 4))));
    assert_eq!(whole.values, vec![(key.clone(), value.clone())]);
    for p in 3..=l {
        let mut pieces = Reader::new();
        pieces.get_values(true);
        let mut first = rec[..p].to_vec();
        pieces.map(&mut first);
        assert!(first.is_empty());
        let mut second = rec[p..].to_vec();
        pieces.map(&mut second);
        assert_eq!(pieces.find(&key), whole.find(&key), "cut at {}", p);
        assert_eq!(pieces.values, whole.values, "cut at {}", p);
        assert_eq!(pieces.map_cursor, whole.map_cursor, "cut at {}", p);
        assert_eq!(pieces.empty_map, whole.empty_map, "cut at {}", p);
        assert_eq!(pieces.corrupt, whole.corrupt, "cut at {}", p);
        assert!(pieces.buffer.is_empty(), "cut at {}", p);
    }
    assert!(whole.buffer.is_empty());
    assert_eq!(whole.map_cursor, l);
}

/// An area of three records and free stretches, with where the second and
/// third records start.
fn mixed_area() -> (Vec<u8>, usize, usize) {
    let a = write_record(vec![1; 8], vec![5; 7]).unwrap();
    let b = write_record(vec![2; 8], vec![6; 3]).unwrap();
    let c = write_record(vec![3; 8], vec![7; 9]).unwrap();
    let mut area = a.clone();
    area.extend(vec![0; 10]);
    let b_at = area.len();
    area.extend(b.clone());
    area.extend(vec![0; 3]);
    let c_at = area.len();
    area.extend(c.clone());
    area.extend(vec![0; 4]);
    (area, b_at, c_at)
}

/// A piece may end anywhere but one or two bytes into a record with fewer
/// than seven bytes waiting before the end of the piece.
fn cut_allowed(p: usize, b_at: usize, c_at: usize) -> bool {
    // the second record has ten zero bytes before it, the third only three
    let _ = b_at;
    !(p == 1 || p == 2 || p == c_at + 1 || p == c_at + 2)
}

fn map_in_pieces(area: &Vec<u8>, size: usize) -> Reader {
    let mut r = Reader::new();
    r.get_values(true);
    let mut at = 0;
    while at < area.len() {
        let end = std::cmp::min(at + size, area.len());
        let mut piece = area[at..end].to_vec();
        r.map(&mut piece);
        at = end;
    }
    r.end().unwrap();
    r
}

#[test]
fn an_area_in_two_pieces_reads_as_at_once() {
    let (area, b_at, c_at) = mixed_area();
    let mut whole = Reader::new();
    whole.get_values(true);
    whole.map(&mut area.clone());
    whole.end().unwrap();
    assert_eq!(whole.find(&vec![2; 8]).map(|s| s.0), Ok((b_at, b_at + 49)));
    assert_eq!(whole.empty_map.len(), 3);
    for p in 0..=area.len() {
        if !cut_allowed(p, b_at, c_at) {
            continue;
        }
        let mut r = Reader::new();
        r.get_values(true);
        r.map(&mut area[..p].to_vec());
        assert_eq!(r.map_cursor + r.buffer.len(), p, "cut at {}", p);
        r.map(&mut area[p..].to_vec());
        r.end().unwrap();
        for k in [vec![1; 8], vec![2; 8], vec![3; 8]] {
            assert_eq!(r.find(&k), whole.find(&k), "cut at {}", p);
        }
        assert_eq!(r.values, whole.values, "cut at {}", p);
        assert_eq!(r.empty_map, whole.empty_map, "cut at {}", p);
        assert_eq!(r.corrupt, whole.corrupt, "cut at {}", p);
        assert_eq!(r.map_cursor, whole.map_cursor, "cut at {}", p);
    }
}

#[test]
fn an_area_in_equal_pieces_reads_as_at_once() {
    let (area, b_at, c_at) = mixed_area();
    let whole = map_in_pieces(&area, area.len());
    let mut tried = 0;
    for size in 1..=area.len() {
        if !(1..area.len()).filter(|p| p % size == 0).all(|p| cut_allowed(p, b_at, c_at)) {
            continue;
        }
        tried += 1;
        let r = map_in_pieces(&area, size);
        for k in [vec![1; 8], vec![2; 8], vec![3; 8]] {
            assert_eq!(r.find(&k), whole.find(&k), "pieces of {}", size);
        }
        assert_eq!(r.values, whole.values, "pieces of {}", size);
        assert_eq!(r.empty_map, whole.empty_map, "pieces of {}", size);
        assert_eq!(r.map_cursor, whole.map_cursor, "pieces of {}", size);
    }
    assert!(tried > 10);
}

#[test]
fn a_piece_ending_in_a_flag_after_few_zero_bytes_loses_the_record() {
    let (area, _b_at, c_at) = mixed_area();
    let mut r = Reader::new();
    r.map(&mut area[..c_at + 1].to_vec());
    r.map(&mut area[c_at + 1..].to_vec());
    let _ = r.end();
    assert_eq!(r.find(&vec![3; 8]), Err(()));
}

#[test]
fn a_second_expand_starts_again_at_map_cursor() {
    let mut reader = Reader::new();
    let mut buf = rec_5_78();
    reader.map(&mut buf);
    reader.end().unwrap();
    reader.expand(100).unwrap();
    assert_eq!(reader.empty_map.get(&1), Some(&(100, (42, 141))));
    // the region the first call added no longer ends at map_cursor - 1, and
    // map_cursor did not move: the second call starts a new region there
    reader.expand(50).unwrap();
    assert_eq!(reader.map_cursor, 42);
    assert_eq!(reader.empty_map.get(&2), Some(&(50, (42, 91))));
    assert_eq!(reader.empty_start.get(&42), Some(&2));
    assert_eq!(reader.empty_end.get(&91), Some(&2));
    assert_eq!(reader.empty_index, 3);
}

#[test]
fn key_and_value_parts_are_read_after_the_flag() {
    let mut reader = Reader::new();
    reader.buffer = rec_5_78();
    reader.flag = (true, 0, 2);
    reader.buffer_cursor = 3;
    assert_eq!(rustque::reader::key::init(&mut reader), Ok(()));
    assert_eq!(reader.key, (true, 8, 1, (18, 18), vec![5]));
    assert_eq!(reader.buffer_cursor, 22);
    assert_eq!(rustque::reader::value::init(&mut reader), Ok(()));
    assert_eq!(reader.value, (true, 8, 2, (37, 39)));
    assert_eq!(reader.end, (true, 39, 41));
    assert_eq!(reader.buffer_cursor, 41);
}

#[test]
fn key_part_waits_for_missing_bytes() {
    let mut reader = Reader::new();
    reader.buffer = rec_5_78()[0..12].to_vec();
    reader.flag = (true, 0, 2);
    reader.buffer_cursor = 3;
    assert_eq!(rustque::reader::key::init(&mut reader), Err(()));
    // the width of the key length was read; the rest waits
    assert_eq!(reader.key.1, 8);
    assert_eq!(reader.buffer_cursor, 4);
    assert_eq!(reader.buffer.len(), 12);
}

#[test]
fn value_part_with_a_broken_marker_gives_up_the_buffer() {
    let mut bytes = rec_5_78();
    bytes[24] = 9; // inside the marker before the value length
    let mut reader = Reader::new();
    reader.buffer = bytes;
    reader.flag = (true, 0, 2);
    reader.buffer_cursor = 3;
    assert_eq!(rustque::reader::key::init(&mut reader), Ok(()));
    assert_eq!(rustque::reader::value::init(&mut reader), Err(()));
    assert!(reader.buffer.is_empty());
    assert_eq!(reader.map_cursor, 42);
    assert!(!reader.flag.0);
}

#[test]
fn pointer_clone_keeps_everything() {
    let d = Pointer::data(42, 100, 0, 41, 18, 18, vec![5], 37, 39);
    let c = d.clone();
    assert_eq!(c.boundry, d.boundry);
    assert_eq!(c.key, d.key);
    assert_eq!(c.value, d.value);
    assert_eq!(c.start_on_map_cursor, 100);
    assert!(matches!(c.pointer_type, PointerType::Data));
}

#[test]
fn classify_records_runs_at_buffer_indexes() {
    let mut reader = Reader::new();
    reader.map_cursor = 10;
    reader.buffer = vec![5];
    classify(&mut reader, 0, 0);
    assert_eq!(reader.corrupt, vec![(1, (0, 0))]);
    assert_eq!(reader.buffer_cursor, 1);
    assert_eq!(reader.map_cursor, 10);
}

#[test]
fn clear_merges_free_space_on_both_sides() {
    let mut r = Reader::new();
    r.empty_map.insert(1, (10, (0, 9)));
    r.empty_map.insert(2, (10, (20, 29)));
    r.empty_start.insert(0, 1);
    r.empty_start.insert(20, 2);
    r.empty_end.insert(9, 1);
    r.empty_end.insert(29, 2);
    r.empty_index = 3;
    r.pointers.insert(vec![7], ((10, 19), (15, 18)));
    assert_eq!(r.clear(&vec![7]), Ok(()));
    assert_eq!(r.find(&vec![7]), Err(()));
    assert_eq!(r.empty_map.len(), 1);
    assert_eq!(r.empty_map.get(&1), Some(&(30, (0, 29))));
    assert_eq!(r.empty_start.len(), 1);
    assert_eq!(r.empty_start.get(&0), Some(&1));
    assert_eq!(r.empty_end.len(), 1);
    assert_eq!(r.empty_end.get(&29), Some(&1));
    assert_eq!(r.empty_index, 3);
}

#[test]
fn clear_opens_a_new_region_between_records() {
    let mut r = Reader::new();
    r.pointers.insert(vec![7], ((10, 19), (15, 18)));
    assert_eq!(r.clear(&vec![7]), Ok(()));
    assert_eq!(r.empty_map.get(&1), Some(&(10, (10, 19))));
    assert_eq!(r.empty_start.get(&10), Some(&1));
    assert_eq!(r.empty_end.get(&19), Some(&1));
    assert_eq!(r.empty_index, 2);
}

#[test]
fn fill_cuts_a_record_from_a_free_region() {
    let mut r = Reader::new();
    r.empty_map.insert(1, (100, (0, 99)));
    r.empty_start.insert(0, 1);
    r.empty_end.insert(99, 1);
    let w = r.fill(vec![1], 5).unwrap();
    assert_eq!((w.start, w.end), (0, 44));
    assert_eq!(r.find(&vec![1]), Ok(((0, 44), (37, 41))));
    assert_eq!(r.empty_map.get(&1), Some(&(55, (45, 99))));
    assert_eq!(r.empty_start.get(&45), Some(&1));
    assert_eq!(r.empty_start.len(), 1);
    assert_eq!(r.empty_end.get(&99), Some(&1));
    assert_eq!(r.empty_index, 1);
}

#[test]
fn fill_then_clear_gives_back_a_whole_region_under_a_new_number() {
    let mut r = Reader::new();
    r.empty_map.insert(1, (40, (0, 39)));
    r.empty_start.insert(0, 1);
    r.empty_end.insert(39, 1);
    r.empty_index = 2;
    r.fill(vec![1], 0).unwrap();
    assert!(r.empty_map.is_empty());
    r.clear(&vec![1]).unwrap();
    assert_eq!(r.empty_map.len(), 1);
    assert_eq!(r.empty_map.get(&2), Some(&(40, (0, 39))));
    assert_eq!(r.empty_start.get(&0), Some(&2));
    assert_eq!(r.empty_end.get(&39), Some(&2));
}
