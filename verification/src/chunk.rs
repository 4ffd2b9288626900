//! Byte-budgeted grouping of serialized records into batches.
//!
//! A batch is a byte buffer that starts with a fixed prefix (the CSV header
//! line, or nothing for NDJSON) followed by whole serialized records. A new
//! record is appended to the current batch unless doing so would reach the
//! configured threshold while the batch already holds at least one record;
//! in that case the current batch is emitted first and the record opens the
//! next one. A record is never split across batches and never dropped: a
//! record bigger than the threshold simply becomes an oversized batch of its
//! own.
//!
//! The spec-level model is [`chunk_run`], a step-by-step mirror of the
//! accumulate-or-flush policy, and [`chunks_of`], the full partition of a
//! record sequence into batches. The laws at the bottom state the guarantees:
//! the partition loses, duplicates and reorders nothing; no batch is empty;
//! an input that fits yields a single batch; a lone oversized record yields
//! exactly one batch.

use vstd::prelude::*;
use vstd::seq_lib::lemma_flatten_concat;

verus! {

/// Total byte length of a sequence of serialized records.
pub open spec fn sum_lens(rows: Seq<Seq<u8>>) -> int
    decreases rows.len(),
{
    if rows.len() == 0 {
        0
    } else {
        rows[0].len() + sum_lens(rows.drop_first())
    }
}

/// Result of running the chunking policy over a record sequence: the batches
/// emitted so far (each a group of whole records) and the group still being
/// accumulated.
pub struct ChunkRun {
    /// Record groups already emitted, oldest first.
    pub emitted: Seq<Seq<Seq<u8>>>,
    /// Records of the batch still being accumulated.
    pub cur: Seq<Seq<u8>>,
}

/// One record of the accumulate-or-flush policy: flush before appending
/// `row` exactly when the buffer (prefix of length `base` plus the records
/// of `cur`) would reach `size` and already holds at least one record.
pub open spec fn must_flush(cur: Seq<Seq<u8>>, row: Seq<u8>, base: int, size: int) -> bool {
    cur.len() >= 1 && base + sum_lens(cur) + row.len() >= size
}

/// Runs the accumulate-or-flush policy over `rows`, starting from a batch
/// that already holds the records `cur`.
pub open spec fn chunk_run(rows: Seq<Seq<u8>>, cur: Seq<Seq<u8>>, base: int, size: int) -> ChunkRun
    decreases rows.len(),
{
    if rows.len() == 0 {
        ChunkRun { emitted: seq![], cur }
    } else {
        let row = rows[0];
        if must_flush(cur, row, base, size) {
            let rest = chunk_run(rows.drop_first(), seq![row], base, size);
            ChunkRun { emitted: seq![cur] + rest.emitted, cur: rest.cur }
        } else {
            chunk_run(rows.drop_first(), cur.push(row), base, size)
        }
    }
}

/// The batches, as groups of whole records, that `rows` is split into: the
/// groups flushed along the way, plus the remaining group if it is not empty
/// (a trailing empty or prefix-only batch is never emitted).
pub open spec fn chunks_of(rows: Seq<Seq<u8>>, base: int, size: int) -> Seq<Seq<Seq<u8>>> {
    let run = chunk_run(rows, seq![], base, size);
    if run.cur.len() >= 1 {
        run.emitted.push(run.cur)
    } else {
        run.emitted
    }
}

/// The bytes of one batch: the fixed prefix followed by its records.
pub open spec fn batch_bytes(prefix: Seq<u8>, group: Seq<Seq<u8>>) -> Seq<u8> {
    prefix + group.flatten()
}

/// Accumulates serialized records into batches bounded by a byte threshold.
///
/// Every batch starts with the fixed `prefix` handed to [`Chunker::new`]
/// (the CSV header line; empty for NDJSON). Records are handed in one at a
/// time through [`Chunker::push`]; a full batch comes back the moment it is
/// closed, and [`Chunker::finish`] returns the last one.
pub struct Chunker {
    prefix: Vec<u8>,
    buffer: Vec<u8>,
    has_records: bool,
    size: usize,
    rows: Ghost<Seq<Seq<u8>>>,
}

impl Chunker {
    /// The fixed byte prefix every batch starts with.
    pub closed spec fn prefix_spec(&self) -> Seq<u8> {
        self.prefix@
    }

    /// The serialized records currently buffered, in arrival order.
    pub closed spec fn rows_spec(&self) -> Seq<Seq<u8>> {
        self.rows@
    }

    /// The configured byte threshold.
    pub closed spec fn threshold_spec(&self) -> int {
        self.size as int
    }

    /// The chunker's buffer holds exactly the prefix followed by its records,
    /// and the record count and byte total agree with it.
    pub closed spec fn wf(&self) -> bool {
        &&& self.buffer@ == self.prefix@ + self.rows@.flatten()
        &&& self.has_records == (self.rows@.len() >= 1)
        &&& sum_lens(self.rows@) == self.rows@.flatten().len()
    }

    /// A chunker with an empty buffer (just the prefix) and the given
    /// threshold.
    pub fn new(prefix: Vec<u8>, size: usize) -> (r: Chunker)
        ensures
            r.wf(),
            r.prefix_spec() == prefix@,
            r.rows_spec() == Seq::<Seq<u8>>::empty(),
            r.threshold_spec() == size as int,
    {
        let mut buffer: Vec<u8> = Vec::new();
        buffer.extend_from_slice(prefix.as_slice());
        proof {
            assert(buffer@ =~= prefix@);
            assert(buffer@ =~= prefix@ + Seq::<Seq<u8>>::empty().flatten());
        }
        Chunker { prefix, buffer, has_records: false, size, rows: Ghost(Seq::empty()) }
    }

    /// Hands the chunker the next serialized record. Returns the finished
    /// batch if the policy closes one first, `None` otherwise; either way the
    /// record itself is now buffered whole.
    pub fn push(&mut self, row: &Vec<u8>) -> (r: Option<Vec<u8>>)
        requires
            old(self).wf(),
        ensures
            final(self).wf(),
            final(self).prefix_spec() == old(self).prefix_spec(),
            final(self).threshold_spec() == old(self).threshold_spec(),
            if must_flush(
                old(self).rows_spec(),
                row@,
                old(self).prefix_spec().len() as int,
                old(self).threshold_spec(),
            ) {
                &&& r matches Some(batch) && batch@ == batch_bytes(
                    old(self).prefix_spec(),
                    old(self).rows_spec(),
                )
                &&& final(self).rows_spec() == seq![row@]
            } else {
                &&& r is None
                &&& final(self).rows_spec() == old(self).rows_spec().push(row@)
            },
    {
        let ghost old_rows = self.rows@;
        let flush = self.has_records && (self.buffer.len() >= self.size || row.len() >= self.size
            - self.buffer.len());
        if flush {
            let mut fresh: Vec<u8> = Vec::new();
            fresh.extend_from_slice(self.prefix.as_slice());
            fresh.extend_from_slice(row.as_slice());
            core::mem::swap(&mut self.buffer, &mut fresh);
            self.has_records = true;
            proof {
                self.rows@ = seq![row@];
                seq![row@].lemma_flatten_one_element();
                assert(seq![row@][0] == row@);
                assert(seq![row@].drop_first() =~= Seq::<Seq<u8>>::empty());
                assert(sum_lens(seq![row@]) == row@.len() + sum_lens(Seq::<Seq<u8>>::empty()));
                assert(self.buffer@ =~= self.prefix@ + seq![row@].flatten());
            }
            Some(fresh)
        } else {
            self.buffer.extend_from_slice(row.as_slice());
            self.has_records = true;
            proof {
                self.rows@ = old_rows.push(row@);
                assert(old_rows.push(row@).drop_last() =~= old_rows);
                old_rows.lemma_flatten_push(row@);
                assert(self.buffer@ =~= self.prefix@ + old_rows.push(row@).flatten());
                lemma_sum_lens_push(old_rows, row@);
            }
            None
        }
    }

    /// Closes the run: returns the remaining batch if any record is buffered,
    /// `None` if only the prefix is (a prefix-only batch is never emitted).
    /// The chunker is reset either way.
    pub fn finish(&mut self) -> (r: Option<Vec<u8>>)
        requires
            old(self).wf(),
        ensures
            final(self).wf(),
            final(self).prefix_spec() == old(self).prefix_spec(),
            final(self).threshold_spec() == old(self).threshold_spec(),
            final(self).rows_spec() == Seq::<Seq<u8>>::empty(),
            if old(self).rows_spec().len() >= 1 {
                r matches Some(batch) && batch@ == batch_bytes(
                    old(self).prefix_spec(),
                    old(self).rows_spec(),
                )
            } else {
                r is None
            },
    {
        let mut fresh: Vec<u8> = Vec::new();
        fresh.extend_from_slice(self.prefix.as_slice());
        core::mem::swap(&mut self.buffer, &mut fresh);
        let had_records = self.has_records;
        self.has_records = false;
        proof {
            self.rows@ = Seq::empty();
            assert(self.buffer@ =~= self.prefix@ + Seq::<Seq<u8>>::empty().flatten());
        }
        if had_records {
            Some(fresh)
        } else {
            None
        }
    }
}

/// Runs a whole record sequence through a fresh [`Chunker`] and returns
/// every batch, in order: exactly the partition [`chunks_of`] describes,
/// each batch serialized as its prefix followed by its records.
pub fn chunk_all(prefix: Vec<u8>, rows: &Vec<Vec<u8>>, size: usize) -> (r: Vec<Vec<u8>>)
    ensures
        r@.map_values(|b: Vec<u8>| b@) == chunks_of(
            rows@.map_values(|v: Vec<u8>| v@),
            prefix@.len() as int,
            size as int,
        ).map_values(|g: Seq<Seq<u8>>| batch_bytes(prefix@, g)),
{
    let ghost all_rows = rows@.map_values(|v: Vec<u8>| v@);
    let ghost base = prefix@.len() as int;
    let ghost full = chunk_run(all_rows, Seq::empty(), base, size as int);
    let mut chunker = Chunker::new(prefix, size);
    let ghost prefix_view = chunker.prefix_spec();
    let mut out: Vec<Vec<u8>> = Vec::new();
    let ghost mut groups: Seq<Seq<Seq<u8>>> = Seq::empty();
    let mut i: usize = 0;
    proof {
        assert(all_rows.skip(0) =~= all_rows);
    }
    while i < rows.len()
        invariant
            i <= rows.len(),
            all_rows == rows@.map_values(|v: Vec<u8>| v@),
            full == chunk_run(all_rows, Seq::<Seq<u8>>::empty(), base, size as int),
            chunker.wf(),
            chunker.prefix_spec() == prefix_view,
            prefix_view.len() == base,
            chunker.threshold_spec() == size as int,
            full.emitted == groups + chunk_run(
                all_rows.skip(i as int),
                chunker.rows_spec(),
                base,
                size as int,
            ).emitted,
            full.cur == chunk_run(
                all_rows.skip(i as int),
                chunker.rows_spec(),
                base,
                size as int,
            ).cur,
            out@.len() == groups.len(),
            forall|k: int|
                0 <= k < groups.len() ==> #[trigger] out@[k]@ == batch_bytes(
                    prefix_view,
                    groups[k],
                ),
        decreases rows.len() - i,
    {
        let ghost pending = all_rows.skip(i as int);
        let ghost cur_before = chunker.rows_spec();
        let ghost row = all_rows[i as int];
        proof {
            assert(pending.len() == all_rows.len() - i);
            assert(pending[0] == row);
            assert(row == rows@[i as int]@);
            assert(pending.drop_first() =~= all_rows.skip(i as int + 1));
        }
        let emitted = chunker.push(&rows[i]);
        proof {
            let old_groups = groups;
            if must_flush(cur_before, row, base, size as int) {
                let rest = chunk_run(all_rows.skip(i as int + 1), seq![row], base, size as int);
                assert(chunk_run(pending, cur_before, base, size as int).emitted == seq![cur_before]
                    + rest.emitted);
                assert(chunk_run(pending, cur_before, base, size as int).cur == rest.cur);
                groups = groups.push(cur_before);
                assert(chunker.rows_spec() =~= seq![row]);
                assert(old_groups + (seq![cur_before] + rest.emitted) =~= groups + rest.emitted);
                assert(full.emitted == groups + rest.emitted);
            } else {
                assert(chunk_run(pending, cur_before, base, size as int) == chunk_run(
                    all_rows.skip(i as int + 1),
                    cur_before.push(row),
                    base,
                    size as int,
                ));
                assert(chunker.rows_spec() == cur_before.push(row));
            }
        }
        if let Some(batch) = emitted {
            out.push(batch);
        }
        i = i + 1;
    }
    proof {
        assert(all_rows.skip(rows@.len() as int) =~= Seq::<Seq<u8>>::empty());
        assert(chunk_run(
            all_rows.skip(rows@.len() as int),
            chunker.rows_spec(),
            base,
            size as int,
        ).emitted =~= Seq::<Seq<Seq<u8>>>::empty());
        assert(full.emitted =~= groups);
        assert(full.cur == chunker.rows_spec());
    }
    let ghost cur_final = chunker.rows_spec();
    let last = chunker.finish();
    if let Some(batch) = last {
        out.push(batch);
        proof {
            groups = groups.push(cur_final);
        }
    }
    proof {
        assert(chunks_of(all_rows, base, size as int) == groups);
        assert(out@.map_values(|b: Vec<u8>| b@) =~= chunks_of(
            all_rows,
            base,
            size as int,
        ).map_values(|g: Seq<Seq<u8>>| batch_bytes(prefix_view, g)));
    }
    out
}

/// Byte totals are never negative.
pub proof fn lemma_sum_lens_nonneg(rows: Seq<Seq<u8>>)
    ensures
        sum_lens(rows) >= 0,
    decreases rows.len(),
{
    if rows.len() > 0 {
        lemma_sum_lens_nonneg(rows.drop_first());
    }
}

/// Running the policy loses, duplicates and reorders nothing: the records of
/// the flushed groups followed by the records still buffered are exactly the
/// records the run started with followed by the records handed to it.
pub proof fn lemma_chunk_run_preserves(rows: Seq<Seq<u8>>, cur: Seq<Seq<u8>>, base: int, size: int)
    ensures
        chunk_run(rows, cur, base, size).emitted.flatten() + chunk_run(rows, cur, base, size).cur
            =~= cur + rows,
    decreases rows.len(),
{
    let run = chunk_run(rows, cur, base, size);
    if rows.len() == 0 {
        assert(run.emitted.flatten() =~= Seq::<Seq<u8>>::empty());
    } else {
        let row = rows[0];
        assert(seq![row] + rows.drop_first() =~= rows);
        if must_flush(cur, row, base, size) {
            let rest = chunk_run(rows.drop_first(), seq![row], base, size);
            lemma_chunk_run_preserves(rows.drop_first(), seq![row], base, size);
            lemma_flatten_concat(seq![cur], rest.emitted);
            assert(seq![cur].flatten() =~= cur) by {
                seq![cur].lemma_flatten_one_element();
            }
        } else {
            lemma_chunk_run_preserves(rows.drop_first(), cur.push(row), base, size);
            assert(cur.push(row) + rows.drop_first() =~= cur + rows);
        }
    }
}

/// Concatenating the record groups of every batch, in batch order,
/// reproduces the original records in their original order, with no
/// duplication and no omission.
pub proof fn lemma_chunks_preserve_rows(rows: Seq<Seq<u8>>, base: int, size: int)
    ensures
        chunks_of(rows, base, size).flatten() =~= rows,
{
    let run = chunk_run(rows, Seq::empty(), base, size);
    lemma_chunk_run_preserves(rows, Seq::empty(), base, size);
    assert(Seq::<Seq<u8>>::empty() + rows =~= rows);
    if run.cur.len() >= 1 {
        run.emitted.lemma_flatten_push(run.cur);
    } else {
        assert(run.cur =~= Seq::<Seq<u8>>::empty());
        assert(run.emitted.flatten() + run.cur =~= run.emitted.flatten());
    }
}

/// No flushed group is ever empty, and the group left at the end is empty
/// only if the run both started empty and saw no records: a batch is never
/// empty or prefix-only.
pub proof fn lemma_chunk_run_nonempty(rows: Seq<Seq<u8>>, cur: Seq<Seq<u8>>, base: int, size: int)
    ensures
        forall|i: int|
            0 <= i < chunk_run(rows, cur, base, size).emitted.len() ==> #[trigger] chunk_run(
                rows,
                cur,
                base,
                size,
            ).emitted[i].len() >= 1,
        rows.len() >= 1 || cur.len() >= 1 ==> chunk_run(rows, cur, base, size).cur.len() >= 1,
    decreases rows.len(),
{
    if rows.len() > 0 {
        let row = rows[0];
        if must_flush(cur, row, base, size) {
            lemma_chunk_run_nonempty(rows.drop_first(), seq![row], base, size);
            let rest = chunk_run(rows.drop_first(), seq![row], base, size);
            assert forall|i: int|
                0 <= i < chunk_run(rows, cur, base, size).emitted.len() implies #[trigger] chunk_run(
                rows,
                cur,
                base,
                size,
            ).emitted[i].len() >= 1 by {
                if i == 0 {
                    assert(chunk_run(rows, cur, base, size).emitted[0] == cur);
                } else {
                    assert(chunk_run(rows, cur, base, size).emitted[i] == rest.emitted[i - 1]);
                }
            }
        } else {
            lemma_chunk_run_nonempty(rows.drop_first(), cur.push(row), base, size);
        }
    }
}

/// Every batch holds at least one whole record: none is empty or
/// prefix-only, however the threshold compares to the record sizes.
pub proof fn lemma_chunks_nonempty(rows: Seq<Seq<u8>>, base: int, size: int)
    ensures
        forall|i: int|
            0 <= i < chunks_of(rows, base, size).len() ==> #[trigger] chunks_of(
                rows,
                base,
                size,
            )[i].len() >= 1,
{
    lemma_chunk_run_nonempty(rows, Seq::empty(), base, size);
}

/// A single record, however large its serialization, yields exactly one
/// batch, and that batch holds the record whole.
pub proof fn lemma_single_record_one_batch(row: Seq<u8>, base: int, size: int)
    ensures
        chunks_of(seq![row], base, size) =~= seq![seq![row]],
{
    let empty_rows = Seq::<Seq<u8>>::empty();
    assert(seq![row].len() == 1);
    assert(seq![row][0] == row);
    assert(!must_flush(empty_rows, row, base, size));
    assert(seq![row].drop_first() =~= empty_rows);
    assert(empty_rows.push(row) =~= seq![row]);
    let run = chunk_run(seq![row], empty_rows, base, size);
    assert(run == chunk_run(seq![row].drop_first(), empty_rows.push(row), base, size));
    assert(chunk_run(empty_rows, seq![row], base, size).cur == seq![row]);
    assert(chunk_run(empty_rows, seq![row], base, size).emitted =~= Seq::<Seq<Seq<u8>>>::empty());
    assert(run.emitted.push(run.cur) =~= seq![seq![row]]);
}

/// While everything fits under the threshold, nothing is ever flushed: the
/// run just appends every record to the group it started with.
pub proof fn lemma_chunk_run_all_fits(rows: Seq<Seq<u8>>, cur: Seq<Seq<u8>>, base: int, size: int)
    requires
        base + sum_lens(cur) + sum_lens(rows) < size,
    ensures
        chunk_run(rows, cur, base, size).emitted =~= Seq::<Seq<Seq<u8>>>::empty(),
        chunk_run(rows, cur, base, size).cur =~= cur + rows,
    decreases rows.len(),
{
    if rows.len() == 0 {
        assert(cur + rows =~= cur);
    } else {
        let row = rows[0];
        lemma_sum_lens_nonneg(rows.drop_first());
        assert(sum_lens(rows) == row.len() + sum_lens(rows.drop_first()));
        assert(!must_flush(cur, row, base, size));
        lemma_sum_lens_push(cur, row);
        lemma_chunk_run_all_fits(rows.drop_first(), cur.push(row), base, size);
        assert(cur.push(row) + rows.drop_first() =~= cur + rows);
    }
}

/// With a threshold larger than the whole serialized input (prefix
/// included), exactly one batch is emitted, holding every record; an empty
/// input yields no batch at all.
pub proof fn lemma_total_fits_single_batch(rows: Seq<Seq<u8>>, base: int, size: int)
    requires
        base + sum_lens(rows) < size,
    ensures
        rows.len() == 0 ==> chunks_of(rows, base, size) =~= Seq::<Seq<Seq<u8>>>::empty(),
        rows.len() >= 1 ==> chunks_of(rows, base, size) =~= seq![rows],
{
    lemma_chunk_run_all_fits(rows, Seq::empty(), base, size);
    assert(Seq::<Seq<u8>>::empty() + rows =~= rows);
    if rows.len() >= 1 {
        assert(chunk_run(rows, Seq::empty(), base, size).emitted.push(rows) =~= seq![rows]);
    }
}

/// A batch's byte length is its prefix plus its records.
pub proof fn lemma_flatten_len(rows: Seq<Seq<u8>>)
    ensures
        rows.flatten().len() == sum_lens(rows),
    decreases rows.len(),
{
    if rows.len() > 0 {
        assert(rows.first() == rows[0]);
        lemma_flatten_len(rows.drop_first());
    }
}

/// While the policy runs, a group of two or more records always fits
/// strictly under the threshold: whenever one would reach it, the batch is
/// closed first. Only a batch holding a single record can be oversized.
pub proof fn lemma_chunk_run_bounded(rows: Seq<Seq<u8>>, cur: Seq<Seq<u8>>, base: int, size: int)
    requires
        cur.len() >= 2 ==> base + sum_lens(cur) < size,
    ensures
        forall|i: int|
            0 <= i < chunk_run(rows, cur, base, size).emitted.len() && #[trigger] chunk_run(
                rows,
                cur,
                base,
                size,
            ).emitted[i].len() >= 2 ==> base + sum_lens(chunk_run(rows, cur, base, size).emitted[i])
                < size,
        chunk_run(rows, cur, base, size).cur.len() >= 2 ==> base + sum_lens(
            chunk_run(rows, cur, base, size).cur,
        ) < size,
    decreases rows.len(),
{
    if rows.len() > 0 {
        let row = rows[0];
        if must_flush(cur, row, base, size) {
            lemma_chunk_run_bounded(rows.drop_first(), seq![row], base, size);
            let rest = chunk_run(rows.drop_first(), seq![row], base, size);
            assert forall|i: int|
                0 <= i < chunk_run(rows, cur, base, size).emitted.len() && #[trigger] chunk_run(
                    rows,
                    cur,
                    base,
                    size,
                ).emitted[i].len() >= 2 implies base + sum_lens(
                chunk_run(rows, cur, base, size).emitted[i],
            ) < size by {
                if i == 0 {
                    assert(chunk_run(rows, cur, base, size).emitted[0] == cur);
                } else {
                    assert(chunk_run(rows, cur, base, size).emitted[i] == rest.emitted[i - 1]);
                }
            }
        } else {
            lemma_sum_lens_push(cur, row);
            lemma_chunk_run_bounded(rows.drop_first(), cur.push(row), base, size);
        }
    }
}

/// Law: a batch's length passes the threshold only when it holds exactly
/// one (oversized) record; every batch of two or more records is strictly
/// under it, prefix included.
pub proof fn lemma_batches_bounded(rows: Seq<Seq<u8>>, base: int, size: int)
    ensures
        forall|i: int|
            0 <= i < chunks_of(rows, base, size).len() && #[trigger] chunks_of(
                rows,
                base,
                size,
            )[i].len() >= 2 ==> base + sum_lens(chunks_of(rows, base, size)[i]) < size,
{
    lemma_chunk_run_bounded(rows, Seq::empty(), base, size);
}

/// Appending a record adds exactly its length to the byte total.
pub proof fn lemma_sum_lens_push(rows: Seq<Seq<u8>>, row: Seq<u8>)
    ensures
        sum_lens(rows.push(row)) == sum_lens(rows) + row.len(),
    decreases rows.len(),
{
    assert(sum_lens(rows.push(row)) == rows.push(row)[0].len() + sum_lens(
        rows.push(row).drop_first(),
    ));
    if rows.len() == 0 {
        assert(rows.push(row)[0] == row);
        assert(rows.push(row).drop_first() =~= Seq::<Seq<u8>>::empty());
        assert(sum_lens(Seq::<Seq<u8>>::empty()) == 0);
    } else {
        assert(rows.push(row)[0] == rows[0]);
        assert(rows.push(row).drop_first() =~= rows.drop_first().push(row));
        lemma_sum_lens_push(rows.drop_first(), row);
    }
}

} // verus!
