use rustque::parser::writer::init as write_record;
use rustque::que::benchmark::{fit_column, padding, test_value, Benchmark, BenchmarkBuilder};
use rustque::que::config::Config;
use rustque::que::map::{
    add_step, chunk_plan, chunk_size, next_free_item, next_index, remove_item, remove_step,
    stored_items, AddStep,
};
use rustque::que::signal::Signal;
use rustque::reader::Reader;
use rustque::workers::{concat_str, u64_from_bytes, u64_to_be, u64_to_bytes};

#[test]
fn u64_bytes_are_big_endian_and_round_trip() {
    let b = u64_to_bytes(0x0102030405060708).unwrap();
    assert_eq!(b, vec![1, 2, 3, 4, 5, 6, 7, 8]);
    assert_eq!(u64_from_bytes(b), Ok(0x0102030405060708));
    assert_eq!(u64_from_bytes(vec![0, 0, 0, 0, 0, 0, 1, 0, 99]), Ok(256));
    assert_eq!(u64_from_bytes(vec![1, 2, 3]), Err(()));
    for n in [0u64, 1, 255, 256, u64::MAX, 1234567890123] {
        assert_eq!(u64_from_bytes(u64_to_bytes(n).unwrap()), Ok(n));
    }
}

#[test]
fn u64_to_be_gives_the_little_endian_bytes() {
    assert_eq!(u64_to_be(0x0102030405060708), vec![8, 7, 6, 5, 4, 3, 2, 1]);
}

#[test]
fn concat_str_keeps_eight_bytes() {
    assert_eq!(concat_str("abcdefghijk".to_string()), "abcdefgh");
    assert_eq!(concat_str("abc".to_string()), "abc");
    assert_eq!(concat_str(String::new()), "");
    // two-byte characters: exactly eight bytes after four of them
    assert_eq!(concat_str("ééééé".to_string()), "éééé");
    // a three-byte character jumps over eight bytes: nothing stops the copy
    assert_eq!(concat_str("abcdefg€xyz".to_string()), "abcdefg€xyz");
}

#[test]
fn padding_fills_a_column() {
    assert_eq!(padding("que_size".to_string()), "que_size     | ");
    assert_eq!(padding("".to_string()), "             | ");
    assert_eq!(padding("thirteen_char".to_string()), "thirteen_char| ");
    assert_eq!(padding("no_of_writers".to_string()).len(), 15);
}

#[test]
fn test_value_cycles_through_two_hundred() {
    let v = test_value(450);
    assert_eq!(v.len(), 450);
    assert_eq!(v[0], 1);
    assert_eq!(v[199], 200);
    assert_eq!(v[200], 1);
    assert_eq!(v[449], 50);
    assert!(test_value(0).is_empty());
}

#[test]
fn config_and_benchmarks_keep_their_settings() {
    let c = Config::new("q.rustque".to_string(), 5_000_000, 5);
    assert_eq!(c.path, "q.rustque");
    assert_eq!(c.frame, 5_000_000);
    assert_eq!(c.disk_writers, 5);
    let b = Benchmark::new(2, 10, vec!["a".to_string()], 64, 1000, 500, 3);
    assert_eq!(b.no_of_writers, 2);
    assert_eq!(b.no_of_writes, 10);
    assert_eq!(b.map_files, vec!["a".to_string()]);
    assert_eq!(b.write_size, 64);
    assert_eq!(b.min_que_size, 1000);
    assert_eq!(b.expansion_size, 500);
    assert_eq!(b.no_of_disk_workers, 3);
    let mut builder = BenchmarkBuilder::new("report.txt".to_string());
    assert!(builder.runs().is_empty());
    builder.add(b.clone());
    builder.add(Benchmark::new(1, 1, vec![], 1, 1, 1, 1));
    assert_eq!(builder.runs().len(), 2);
    assert_eq!(builder.runs()[0].no_of_writes, 10);
    assert_eq!(builder.file_path(), "report.txt");
}

#[test]
fn signal_starts_unset() {
    let mut s = Signal::new();
    assert!(!s.check());
    s.ok();
    assert!(s.check());
}

#[test]
fn chunk_sizes_follow_the_file_size() {
    assert_eq!(chunk_size(0), 0);
    assert_eq!(chunk_size(10), 10);
    assert_eq!(chunk_size(25_000_000), 25_000_000);
    assert_eq!(chunk_size(25_000_001), 25_000_000);
    assert_eq!(chunk_size(50_000_001), 50_000_000);
    assert_eq!(chunk_size(100_000_001), 100_000_000);
}

#[test]
fn chunk_plan_covers_the_file() {
    assert!(chunk_plan(0).is_empty());
    assert_eq!(chunk_plan(10), vec![(0, 10)]);
    assert_eq!(
        chunk_plan(60_000_000),
        vec![(0, 50_000_000), (50_000_000, 10_000_000)]
    );
    assert_eq!(
        chunk_plan(250_000_000),
        vec![(0, 100_000_000), (100_000_000, 100_000_000), (200_000_000, 50_000_000)]
    );
}

fn reader_with(records: &[(u64, Vec<u8>)], free: usize) -> Reader {
    let mut bytes = Vec::new();
    for (k, v) in records {
        bytes.extend(write_record(u64_to_bytes(*k).unwrap(), v.clone()).unwrap());
    }
    bytes.extend(vec![0; free]);
    let mut reader = Reader::new();
    reader.map(&mut bytes);
    reader.end().unwrap();
    reader
}

#[test]
fn stored_items_are_sorted_item_numbers() {
    let mut reader = reader_with(&[(7, vec![1]), (3, vec![2]), (12, vec![3])], 0);
    assert_eq!(stored_items(&reader), vec![3, 7, 12]);
    // a key too short to name an item is left out
    let w = reader.expand(100);
    assert_eq!(w, Ok(()));
    reader.fill(vec![1, 2], 1).unwrap();
    assert_eq!(stored_items(&reader), vec![3, 7, 12]);
}

#[test]
fn add_step_places_or_grows() {
    let mut reader = reader_with(&[(1, vec![9])], 0);
    let key = u64_to_bytes(2).unwrap();
    match add_step(&mut reader, key.clone(), 4, 100, false) {
        AddStep::Grown => {}
        _ => panic!("there was no free space"),
    }
    assert_eq!(reader.map_cursor, 48);
    assert_eq!(reader.empty_map.get(&1), Some(&(100, (48, 147))));
    match add_step(&mut reader, key.clone(), 4, 100, true) {
        AddStep::Placed(w) => {
            assert_eq!((w.start, w.end), (48, 48 + 51 - 1));
            assert_eq!(reader.find(&key), Ok(((48, 98), (92, 95))));
        }
        _ => panic!("the free space was large enough"),
    }
}

#[test]
fn add_step_refuses_once_grown() {
    let mut reader = reader_with(&[(1, vec![9])], 0);
    let key = u64_to_bytes(2).unwrap();
    match add_step(&mut reader, key.clone(), 4, 100, true) {
        AddStep::Refused => {}
        _ => panic!("a grown map that has no room refuses the value"),
    }
    assert_eq!(reader.map_cursor, 48);
    assert!(reader.empty_map.is_empty());
    assert_eq!(reader.find(&key), Err(()));
}

#[test]
fn remove_step_frees_the_record() {
    let mut reader = reader_with(&[(1, vec![9]), (2, vec![8])], 0);
    let key = u64_to_bytes(1).unwrap();
    assert_eq!(remove_step(&mut reader, &key), Some((0, 47)));
    assert_eq!(reader.find(&key), Err(()));
    assert_eq!(reader.empty_map.get(&1), Some(&(48, (0, 47))));
    assert_eq!(remove_step(&mut reader, &key), None);
    assert_eq!(stored_items(&reader), vec![2]);
}

#[test]
fn next_index_follows_the_last_item() {
    assert_eq!(next_index(&vec![]), Some(1));
    assert_eq!(next_index(&vec![3, 4, 9]), Some(10));
    assert_eq!(next_index(&vec![u64::MAX]), None);
}

#[test]
fn next_free_item_skips_items_being_processed() {
    assert_eq!(next_free_item(&vec![], &vec![]), None);
    assert_eq!(next_free_item(&vec![4, 5, 6], &vec![]), Some(4));
    assert_eq!(next_free_item(&vec![4, 5, 6], &vec![4, 6]), Some(5));
    assert_eq!(next_free_item(&vec![4, 5], &vec![5, 4]), None);
}

#[test]
fn stored_items_sorts_many_items() {
    let records: Vec<(u64, Vec<u8>)> = (1..=40u64).rev().map(|k| (k * 3, vec![k as u8])).collect();
    let reader = reader_with(&records, 7);
    let expected: Vec<u64> = (1..=40u64).map(|k| k * 3).collect();
    assert_eq!(stored_items(&reader), expected);
}

#[test]
fn fit_column_cuts_to_thirteen_bytes() {
    assert_eq!(fit_column("writes/sec".to_string()), "writes/sec");
    assert_eq!(fit_column("123.456789012ms".to_string()), "123.456789012");
    // a two-byte character that would pass the width is left out
    assert_eq!(fit_column("abcdefghijkl\u{e9}".to_string()), "abcdefghijkl");
    assert_eq!(padding(fit_column("123.456789012ms".to_string())), "123.456789012| ");
}

#[test]
fn remove_item_drops_every_copy() {
    let mut v = vec![3, 5, 3, 7];
    assert!(remove_item(&mut v, 3));
    assert_eq!(v, vec![5, 7]);
    assert!(!remove_item(&mut v, 9));
    assert_eq!(v, vec![5, 7]);
}
