use vstd::prelude::*;
use vstd::string::StringExecFns;
use vstd::std_specs::iter::IteratorSpec;
use crate::workers::{lemma_encode_utf8_append, push_char};

verus! {

/// The width of a column of the benchmark report, separator excluded.
pub const COLUMN_WIDTH: usize = 13;

/// `s` padded with spaces to the column width and closed by `"| "`.
pub open spec fn padded(s: Seq<char>, byte_len: int) -> Seq<char> {
    s + Seq::new((COLUMN_WIDTH - byte_len) as nat, |i: int| ' ') + seq!['|', ' ']
}

/// Pads `s` with spaces to the width of a report column (counted in bytes)
/// and closes the column with `"| "`.
pub fn padding(s: String) -> (r: String)
    requires
        vstd::utf8::encode_utf8(s@).len() <= COLUMN_WIDTH,
    ensures
        r@ == padded(s@, vstd::utf8::encode_utf8(s@).len() as int),
{
    let mut h = s;
    let len = h.as_str().len();
    let padd_by = COLUMN_WIDTH - len;
    let mut i: usize = 0;
    while i < padd_by
        invariant
            i <= padd_by,
            h@ == s@ + Seq::new(i as nat, |j: int| ' '),
        decreases padd_by - i,
    {
        proof {
            reveal_strlit(" ");
        }
        h.append(" ");
        i += 1;
        assert(h@ =~= s@ + Seq::new(i as nat, |j: int| ' '));
    }
    proof {
        reveal_strlit("| ");
    }
    h.append("| ");
    assert(h@ =~= padded(s@, len as int));
    h
}

/// One benchmark run: how many writers write how many values of what size
/// into a queue over which files, with what starting size, growth step and
/// number of disk workers.
#[derive(Debug, Clone, Default)]
pub struct Benchmark {
    pub no_of_writers: u8,
    pub no_of_writes: u64,
    pub map_files: Vec<String>,
    pub write_size: usize,
    pub min_que_size: u64,
    pub expansion_size: u64,
    pub no_of_disk_workers: u8,
}

impl Benchmark {
    /// A benchmark run with these settings.
    pub fn new(
        no_of_writers: u8,
        no_of_writes: u64,
        map_files: Vec<String>,
        write_size: usize,
        min_que_size: u64,
        expansion_size: u64,
        no_of_disk_workers: u8,
    ) -> (r: Benchmark)
        ensures
            r.no_of_writers == no_of_writers,
            r.no_of_writes == no_of_writes,
            r.map_files == map_files,
            r.write_size == write_size,
            r.min_que_size == min_que_size,
            r.expansion_size == expansion_size,
            r.no_of_disk_workers == no_of_disk_workers,
    {
        Benchmark {
            no_of_writers: no_of_writers,
            no_of_writes: no_of_writes,
            map_files: map_files,
            write_size: write_size,
            min_que_size: min_que_size,
            expansion_size: expansion_size,
            no_of_disk_workers: no_of_disk_workers,
        }
    }
}

/// A list of benchmark runs, and the file their report goes to.
#[derive(Debug, Clone, Default)]
pub struct BenchmarkBuilder {
    file_path: String,
    collect: Vec<Benchmark>,
}

impl BenchmarkBuilder {
    /// The file the report goes to.
    pub closed spec fn spec_file_path(&self) -> Seq<char> {
        self.file_path@
    }

    /// The runs, in the order they were added.
    pub closed spec fn spec_runs(&self) -> Seq<Benchmark> {
        self.collect@
    }

    /// No runs yet; the report goes to `file_path`.
    pub fn new(file_path: String) -> (r: BenchmarkBuilder)
        ensures
            r.spec_file_path() == file_path@,
            r.spec_runs() == Seq::<Benchmark>::empty(),
    {
        BenchmarkBuilder { file_path: file_path, collect: Vec::new() }
    }

    /// Adds a run at the end of the list.
    pub fn add(&mut self, a: Benchmark)
        ensures
            final(self).spec_runs() == old(self).spec_runs().push(a),
            final(self).spec_file_path() == old(self).spec_file_path(),
    {
        self.collect.push(a);
    }

    /// The file the report goes to.
    pub fn file_path(&self) -> (r: &String)
        ensures
            r@ == self.spec_file_path(),
    {
        &self.file_path
    }

    /// The runs, in the order they were added.
    pub fn runs(&self) -> (r: &Vec<Benchmark>)
        ensures
            r@ == self.spec_runs(),
    {
        &self.collect
    }
}

/// The byte at position `i` of a test value: the numbers 1 to 200, over and over.
pub open spec fn test_byte(i: int) -> u8 {
    ((i % 200) + 1) as u8
}

/// A test value of `size` bytes: 1, 2, ..., 200, 1, 2, ...
pub fn test_value(size: usize) -> (r: Vec<u8>)
    ensures
        r@.len() == size,
        forall|i: int| 0 <= i < size ==> #[trigger] r@[i] == test_byte(i),
{
    let mut v: Vec<u8> = Vec::new();
    let mut last_put: u8 = 0;
    while v.len() < size
        invariant
            v@.len() <= size,
            forall|i: int| 0 <= i < v@.len() ==> #[trigger] v@[i] == test_byte(i),
            last_put == (if v@.len() == 0 { 0 } else { test_byte(v@.len() - 1) }),
        decreases size - v@.len(),
    {
        if last_put == 200 {
            last_put = 1;
        } else {
            last_put += 1;
        }
        v.push(last_put);
    }
    v
}

/// How many leading characters of `s`, from `k` on, fit a report column:
/// characters are taken while their UTF-8 bytes stay within the column width.
pub open spec fn column_cut(s: Seq<char>, k: int) -> int
    decreases s.len() - k,
{
    if k < 0 {
        0
    } else if k >= s.len() || vstd::utf8::encode_utf8(s.take(k + 1)).len() > COLUMN_WIDTH {
        k
    } else {
        column_cut(s, k + 1)
    }
}

/// The longest start of `s` that fits a report column (see `column_cut`).
pub fn fit_column(s: String) -> (r: String)
    requires
        vstd::utf8::encode_utf8(s@).len() <= usize::MAX,
    ensures
        r@ == s@.take(column_cut(s@, 0)),
        vstd::utf8::encode_utf8(r@).len() <= COLUMN_WIDTH,
{
    let ghost t = s@;
    let mut collect = String::new();
    let mut chars = s.as_str().chars();
    let ghost mut n: int = 0;
    loop
        invariant_except_break
            0 <= n <= t.len(),
            collect@ == t.take(n),
            chars.remaining() == t.skip(n),
            vstd::utf8::encode_utf8(t).len() <= usize::MAX,
            vstd::utf8::encode_utf8(t.take(n)).len() <= COLUMN_WIDTH,
            column_cut(t, n) == column_cut(t, 0),
        ensures
            collect@ == t.take(column_cut(t, 0)),
            vstd::utf8::encode_utf8(collect@).len() <= COLUMN_WIDTH,
        decreases t.len() - n,
    {
        match chars.next() {
            Some(c) => {
                let mut next = collect.clone();
                push_char(&mut next, c);
                proof {
                    assert(t.skip(n)[0] == c);
                    assert(next@ =~= t.take(n + 1));
                    lemma_encode_utf8_append(t.take(n + 1), t.skip(n + 1));
                    assert(t.take(n + 1) + t.skip(n + 1) =~= t);
                }
                if next.as_str().len() > COLUMN_WIDTH {
                    proof {
                        assert(column_cut(t, n) == n);
                    }
                    break;
                }
                collect = next;
                proof {
                    assert(t.skip(n).drop_first() =~= t.skip(n + 1));
                    n = n + 1;
                }
            },
            None => {
                proof {
                    assert(t.take(n) =~= t.take(t.len() as int));
                    assert(column_cut(t, n) == n);
                }
                break;
            },
        }
    }
    collect
}

} // verus!
