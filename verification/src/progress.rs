//! When the progress of a pass over a file is shown.

use vstd::prelude::*;
use crate::record::fields_of;

verus! {

/// A file smaller than this many bytes is read without a progress bar.
pub const BAR_THRESHOLD: u64 = 1000000;

/// The bar is moved once in this many rows.
pub const UPDATE_INTERVAL: u64 = 1000;

/// Whether a progress bar is shown for a file of the given size.
pub fn shows_bar(quiet: bool, file_size: u64) -> (r: bool)
    ensures
        r == (!quiet && file_size >= BAR_THRESHOLD),
{
    !quiet && file_size >= BAR_THRESHOLD
}

/// How far a pass has come: the rows read, and an estimate of the bytes
/// read, which counts the bytes of every field and one more for each.
#[derive(Debug, Clone, Copy, PartialEq, Eq, Structural)]
pub struct ProgressState {
    pub count: u64,
    pub bytes_read: u64,
}

/// The sum of two numbers, kept within 64 bits.
pub open spec fn capped_sum(a: int, b: int) -> int {
    if a + b > u64::MAX {
        u64::MAX as int
    } else {
        a + b
    }
}

/// The estimate of the bytes of the first `n` fields of a row.
pub open spec fn row_bytes(row: Seq<Seq<char>>, n: int) -> int
    decreases n,
{
    if n <= 0 {
        0
    } else {
        capped_sum(row_bytes(row, n - 1), vstd::utf8::encode_utf8(row[n - 1]).len() as int + 1)
    }
}

fn add_capped(a: u64, b: u64) -> (r: u64)
    ensures
        r == capped_sum(a as int, b as int),
{
    if a > u64::MAX - b {
        u64::MAX
    } else {
        a + b
    }
}

/// The estimate of the bytes of a row.
pub fn record_bytes(record: &csv::StringRecord) -> (r: u64)
    ensures
        r == row_bytes(fields_of(*record), fields_of(*record).len() as int),
{
    let n: usize = record.len();
    let mut total: u64 = 0;
    let mut i: usize = 0;
    while i < n
        invariant
            i <= n == fields_of(*record).len(),
            total == row_bytes(fields_of(*record), i as int),
        decreases n - i,
    {
        let field = crate::record::field(record, i);
        let len: usize = field.as_bytes().len();
        let one = add_capped(len as u64, 1);
        total = add_capped(total, one);
        i += 1;
    }
    total
}

impl ProgressState {
    /// The state before the first row.
    pub fn new() -> (r: ProgressState)
        ensures
            r.count == 0,
            r.bytes_read == 0,
    {
        ProgressState { count: 0, bytes_read: 0 }
    }

    /// Takes a row of the given size and says where the bar is to be moved
    /// to, if it is due to move.
    pub fn update(&mut self, bytes: u64) -> (r: Option<u64>)
        ensures
            final(self).count == capped_sum(old(self).count as int, 1),
            final(self).bytes_read == capped_sum(old(self).bytes_read as int, bytes as int),
            r == if final(self).count % UPDATE_INTERVAL == 0 {
                Some(final(self).bytes_read)
            } else {
                None
            },
    {
        self.count = add_capped(self.count, 1);
        self.bytes_read = add_capped(self.bytes_read, bytes);
        if self.count % UPDATE_INTERVAL == 0 {
            Some(self.bytes_read)
        } else {
            None
        }
    }
}

} // verus!
