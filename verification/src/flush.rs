//! Handing a batch over to be written: when there is something to hand over,
//! what is written, and where.

use parquet::basic::ZstdLevel;
use parquet::errors::ParquetError;

use vstd::prelude::*;

use crate::batch::{first_start, holds_in_time_order, last_start, Batch, Row, WriteError};
use crate::clock::now_ns;
use crate::columns::Table;
use crate::partition::{partition_path, partition_text};

verus! {

/// Swaps the batch for a fresh one and hands it over, if it has any rows.
pub fn take_full(batch: &mut Batch) -> (res: Option<Batch>)
    requires
        old(batch).wf(),
    ensures
        final(batch).wf(),
        final(batch)@ == Seq::<Row>::empty(),
        res is None <==> old(batch)@.len() == 0,
        res matches Some(full) ==> full.wf() && full@ == old(batch)@,
{
    if batch.rows() == 0 {
        assert(batch@ =~= Seq::empty());
        return None;
    }
    let mut full = Batch::new();
    std::mem::swap(batch, &mut full);
    Some(full)
}

/// A table, how hard it is to be compressed, and the file it goes into, below the
/// archive's root; no table where there is nothing to write.
pub struct Flush {
    pub path: String,
    pub table: Option<Table>,
    pub zstd_level: i32,
}

/// Whether there is such a level of compression.
pub open spec fn is_zstd_level(level: i32) -> bool {
    1 <= level <= 22
}

/// `ZstdLevel::try_new` takes the levels from 1 to 22 as they are.
#[verifier::external_body]
fn checked_level(level: i32) -> (res: Result<i32, ParquetError>)
    ensures
        res is Ok <==> is_zstd_level(level),
        res matches Ok(l) ==> l == level,
{
    ZstdLevel::try_new(level).map(|l| l.compression_level())
}

/// The end of the window that a batch is named after: the latest start among its
/// rows, or the time of writing where it has none.
pub open spec fn window_end(rows: Seq<Row>, now: Option<i64>) -> Option<i64> {
    if rows.len() > 0 {
        Some(last_start(rows))
    } else {
        now
    }
}

/// What is written of a batch, given the time of writing, if the clock tells one:
/// its rows as a table sorted by time, under the path that its window gives, with the
/// given level of compression. The time matters only where there are no rows, the
/// level only where there are.
pub fn write_batch_at(batch: Batch, zstd_level: i32, now: Option<i64>) -> (res: Result<
    Flush,
    WriteError,
>)
    requires
        batch.wf(),
    ensures
        match window_end(batch@, now) {
            Some(end) => if batch@.len() > 0 && !is_zstd_level(zstd_level) {
                res matches Err(e) && e is Level
            } else {
                &&& res matches Ok(flush)
                &&& flush.path@ == partition_text(first_start(batch@) as int, end as int)
                &&& flush.zstd_level == zstd_level
                &&& flush.table is None <==> batch@.len() == 0
                &&& flush.table matches Some(t) ==> holds_in_time_order(t, batch@)
            },
            None => res matches Err(e) && e is Clock,
        },
{
    proof {
        law_window(batch@);
    }
    let start: i64 = batch.window_start_ns();
    let end: i64 = if batch.window_end_ns() >= start {
        batch.window_end_ns()
    } else {
        match now {
            Some(now) => now,
            None => return Err(WriteError::Clock),
        }
    };
    let path = partition_path(start, end);
    let table = match batch.sorted() {
        Ok(Some(table)) => table,
        Ok(None) => return Ok(Flush { path, table: None, zstd_level }),
        Err(e) => return Err(e),
    };
    match checked_level(zstd_level) {
        Ok(level) => Ok(Flush { path, table: Some(table), zstd_level: level }),
        Err(e) => Err(WriteError::Level(e)),
    }
}

/// What is written of a batch now. The clock is looked at only where there are no
/// rows.
pub fn write_batch(batch: Batch, zstd_level: i32) -> (res: Result<Flush, WriteError>)
    requires
        batch.wf(),
    ensures
        batch@.len() > 0 && is_zstd_level(zstd_level) ==> {
            &&& res matches Ok(flush)
            &&& flush.path@ == partition_text(
                first_start(batch@) as int,
                last_start(batch@) as int,
            )
            &&& flush.zstd_level == zstd_level
            &&& flush.table matches Some(t)
            &&& holds_in_time_order(t, batch@)
        },
        batch@.len() > 0 && !is_zstd_level(zstd_level) ==> (res matches Err(e) && e is Level),
        batch@.len() == 0 ==> match res {
            Ok(flush) => {
                &&& flush.table is None
                &&& flush.zstd_level == zstd_level
                &&& exists|now: i64|
                    flush.path@ == #[trigger] partition_text(i64::MAX as int, now as int)
            },
            Err(e) => e is Clock,
        },
{
    let now: Option<i64> = if batch.rows() == 0 {
        now_ns()
    } else {
        None
    };
    write_batch_at(batch, zstd_level, now)
}

/// The window of a batch with rows runs from the start of one of them to the
/// start of one of them, and every row starts in it.
pub proof fn law_window(rows: Seq<Row>)
    ensures
        rows.len() > 0 ==> first_start(rows) <= last_start(rows),
        rows.len() == 0 ==> first_start(rows) > last_start(rows),
        forall|i: int|
            0 <= i < rows.len() ==> first_start(rows) <= (#[trigger] rows[i]).time_flow_start_ns
                <= last_start(rows),
        rows.len() > 0 ==> {
            &&& exists|i: int|
                0 <= i < rows.len() && (#[trigger] rows[i]).time_flow_start_ns == first_start(rows)
            &&& exists|i: int|
                0 <= i < rows.len() && (#[trigger] rows[i]).time_flow_start_ns == last_start(rows)
        },
    decreases rows.len(),
{
    if rows.len() > 0 {
        let before = rows.drop_last();
        law_window(before);
        let n = rows.len() - 1;
        assert(rows[n] == rows.last());
        assert forall|i: int| 0 <= i < rows.len() implies first_start(rows) <= (
        #[trigger] rows[i]).time_flow_start_ns <= last_start(rows) by {
            if i < n {
                assert(before[i] == rows[i]);
            }
        }
        if before.len() > 0 {
            let a = choose|i: int|
                0 <= i < before.len() && (#[trigger] before[i]).time_flow_start_ns == first_start(
                    before,
                );
            let b = choose|i: int|
                0 <= i < before.len() && (#[trigger] before[i]).time_flow_start_ns == last_start(
                    before,
                );
            assert(rows[a] == before[a] && rows[b] == before[b]);
        }
    }
}

/// A batch is named after the latest start among its rows, also where the clock says
/// something else; without rows, after what the clock says.
pub proof fn law_window_end(rows: Seq<Row>, now: Option<i64>)
    ensures
        rows.len() == 0 ==> window_end(rows, now) == now,
        rows.len() > 0 ==> {
            &&& window_end(rows, now) matches Some(end)
            &&& exists|i: int| 0 <= i < rows.len() && (#[trigger] rows[i]).time_flow_start_ns == end
            &&& forall|i: int|
                0 <= i < rows.len() ==> (#[trigger] rows[i]).time_flow_start_ns <= end
        },
{
    law_window(rows);
}

} // verus!
