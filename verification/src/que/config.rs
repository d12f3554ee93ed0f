use vstd::prelude::*;

verus! {

/// Where a queue keeps its data, the size of the area it starts with, and how
/// many disk writers it runs.
pub struct Config {
    pub path: String,
    pub frame: u64,
    pub disk_writers: u64,
}

impl Config {
    /// A configuration for the queue stored at `path`.
    pub fn new(path: String, frame_size: u64, num_of_writers: u64) -> (r: Config)
        ensures
            r.path@ == path@,
            r.frame == frame_size,
            r.disk_writers == num_of_writers,
    {
        Config { path: path, frame: frame_size, disk_writers: num_of_writers }
    }
}

} // verus!
