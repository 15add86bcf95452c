//! The compute core of the streaming loader: turning a raw byte buffer
//! into records (an explicit, bounds-checked replacement for in-place
//! reinterpretation), sizing refills to whole batches, and splitting a
//! record count into in-order batches.

use vstd::prelude::*;

use crate::BulletFormat;

verus! {

/// Every record shape occupies exactly this many bytes, so a data file
/// is an unframed array of records and byte offset = index * 32.
pub const RECORD_SIZE: usize = 32;

/// Reads back-to-back 32-byte records from a buffer.  A trailing
/// fragment shorter than one record is dropped, explicitly: the result
/// holds exactly `len / 32` records.
pub fn records_from_bytes<T: BulletFormat>(buf: &[u8]) -> (r: Vec<T>)
    ensures
        r@.len() == buf@.len() / 32,
        forall|k: int|
            0 <= k < r@.len() ==> r@[k] == T::from_bytes_spec(
                buf@.subrange(32 * k, 32 * k + 32),
            ),
{
    let blen = buf.len();
    let n = blen / 32;
    proof {
        assert(32 * (buf@.len() as int / 32) <= buf@.len());
    }
    let mut out: Vec<T> = Vec::new();
    let mut i: usize = 0;
    while i < n
        invariant
            i <= n,
            n == buf@.len() / 32,
            buf@.len() == blen,
            32 * (n as int) <= buf@.len(),
            out@.len() == i,
            forall|k: int|
                0 <= k < i ==> out@[k] == T::from_bytes_spec(buf@.subrange(32 * k, 32 * k + 32)),
        decreases n - i,
    {
        let rec = T::from_bytes(vstd::slice::slice_subrange(buf, 32 * i, 32 * i + 32));
        out.push(rec);
        i += 1;
    }
    out
}

/// The largest batch one refill can hold: the buffer budget in records.
pub fn max_batch_size(buffer_size: usize) -> (r: usize)
    ensures
        r == buffer_size / 32,
{
    buffer_size / 32
}

/// Number of records in a data file: the bytes after the header, in
/// whole records.
pub fn data_len(file_len: usize, header_size: usize) -> (r: usize)
    requires
        header_size <= file_len,
    ensures
        r == (file_len - header_size) / 32,
{
    (file_len - header_size) / 32
}

/// Bytes read per refill: the buffer budget rounded down to a whole
/// number of whole batches, so every refill but the last splits into
/// full batches.
pub fn refill_capacity(buffer_size: usize, batch_size: usize) -> (r: usize)
    requires
        batch_size >= 1,
    ensures
        r == 32 * (batch_size * ((buffer_size / 32) / batch_size)),
        r <= buffer_size,
        r % 32 == 0,
{
    let b = buffer_size / 32;
    let n = b / batch_size;
    proof {
        assert(batch_size * ((buffer_size / 32) as int / batch_size as int) <= (buffer_size / 32)
            as int) by (nonlinear_arith)
            requires
                batch_size >= 1,
        ;
        assert(32 * (buffer_size as int / 32) <= buffer_size);
        assert((32 * (batch_size * ((buffer_size / 32) as int / batch_size as int))) % 32 == 0)
            by (nonlinear_arith);
    }
    32 * (batch_size * n)
}

/// Splits `total` records into contiguous batches of `batch_size`
/// records, in order, the last batch possibly shorter.  The bounds
/// partition `0..total`: batch `k` starts exactly where batch `k - 1`
/// ended, so the concatenation of the batches is the original sequence.
#[verifier::loop_isolation(false)]
pub fn batch_bounds(total: usize, batch_size: usize) -> (r: Vec<(usize, usize)>)
    requires
        batch_size >= 1,
    ensures
        total == 0 ==> r@.len() == 0,
        total > 0 ==> r@.len() >= 1 && (r@[0]).0 == 0 && r@.last().1 == total,
        forall|k: int|
            0 <= k < r@.len() ==> (#[trigger] r@[k]).0 < r@[k].1 <= total && r@[k].1 - r@[k].0
                <= batch_size,
        forall|k: int| 0 <= k < r@.len() - 1 ==> (#[trigger] r@[k]).1 == r@[k + 1].0,
        forall|k: int|
            0 <= k < r@.len() - 1 ==> (#[trigger] r@[k]).1 - r@[k].0 == batch_size,
{
    let mut r: Vec<(usize, usize)> = Vec::new();
    let mut s: usize = 0;
    while s < total
        invariant
            s <= total,
            r@.len() == 0 ==> s == 0,
            r@.len() > 0 ==> (r@[0]).0 == 0 && r@.last().1 == s && s > 0,
            forall|k: int|
                0 <= k < r@.len() ==> (#[trigger] r@[k]).0 < r@[k].1 <= total && r@[k].1 - r@[k].0
                    <= batch_size,
            forall|k: int| 0 <= k < r@.len() - 1 ==> (#[trigger] r@[k]).1 == r@[k + 1].0,
            forall|k: int|
                0 <= k < r@.len() - 1 ==> (#[trigger] r@[k]).1 - r@[k].0 == batch_size,
            s < total ==> (r@.len() == 0 || r@.last().1 - r@.last().0 == batch_size),
        decreases total - s,
    {
        let e = if total - s < batch_size {
            total
        } else {
            s + batch_size
        };
        r.push((s, e));
        s = e;
    }
    r
}

} // verus!
