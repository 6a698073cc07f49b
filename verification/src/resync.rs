use crate::bgzf::{
    body_outcome, bsize_at, exact_header, first_header, has_gzip_magic,
    lemma_first_header_is_least, lemma_skip_implausible, plausible_header, read_outcome,
    scan_outcome, slen_at, xlen_at, BlockOutcome,
};
use crate::error::BamErrorKind;
use crate::extract::{in_range, lemma_step_advances, run, step, Options, Run};
use vstd::prelude::*;

verus! {

/// `outcome` with the cursor `by` bytes further on.
pub open spec fn moved(outcome: BlockOutcome, by: int) -> BlockOutcome {
    BlockOutcome { end: outcome.end + by, ..outcome }
}

/// Whether a header is plausible depends on the bytes from it on alone.
pub proof fn lemma_header_moves(prefix: Seq<u8>, rest: Seq<u8>, at: int)
    requires
        0 <= at,
    ensures
        plausible_header(prefix + rest, prefix.len() + at) == plausible_header(rest, at),
        at + 18 <= rest.len() ==> xlen_at(prefix + rest, prefix.len() + at) == xlen_at(rest, at)
            && bsize_at(prefix + rest, prefix.len() + at) == bsize_at(rest, at),
{
    let data = prefix + rest;
    let p = prefix.len() as int;
    if at + 18 <= rest.len() {
        assert(data.subrange(p + at + 10, p + at + 12) =~= rest.subrange(at + 10, at + 12));
        assert(data.subrange(p + at + 16, p + at + 18) =~= rest.subrange(at + 16, at + 18));
    }
}

/// Where the first header is found depends on the bytes from the cursor on
/// alone.
pub proof fn lemma_first_header_moves(prefix: Seq<u8>, rest: Seq<u8>, at: int)
    requires
        0 <= at,
    ensures
        first_header(prefix + rest, prefix.len() + at) == match first_header(rest, at) {
            Some(start) => Some(prefix.len() + start),
            None => None,
        },
    decreases rest.len() - at,
{
    lemma_header_moves(prefix, rest, at);
    if at + 18 <= rest.len() && !plausible_header(rest, at) {
        lemma_first_header_moves(prefix, rest, at + 1);
    }
}

/// How reading the rest of a block ends depends on the bytes from the
/// cursor on alone.
pub proof fn lemma_body_moves(prefix: Seq<u8>, rest: Seq<u8>, at: int, n: int)
    requires
        0 <= at,
        0 <= n,
    ensures
        body_outcome(prefix + rest, prefix.len() + at, n) == moved(
            body_outcome(rest, at, n),
            prefix.len() as int,
        ),
{
    let data = prefix + rest;
    let p = prefix.len() as int;
    if at + n + 8 <= rest.len() {
        assert(data.subrange(p + at, p + at + n) =~= rest.subrange(at, at + n));
        assert(data.subrange(p + at + n, p + at + n + 4) =~= rest.subrange(at + n, at + n + 4));
        assert(data.subrange(p + at + n + 4, p + at + n + 8) =~= rest.subrange(
            at + n + 4,
            at + n + 8,
        ));
    }
}

/// How a search for a block ends depends on the bytes from the cursor on
/// alone.
pub proof fn lemma_scan_moves(prefix: Seq<u8>, rest: Seq<u8>, at: int)
    requires
        0 <= at,
    ensures
        scan_outcome(prefix + rest, prefix.len() + at) == moved(
            scan_outcome(rest, at),
            prefix.len() as int,
        ),
{
    lemma_first_header_moves(prefix, rest, at);
    lemma_first_header_is_least(rest, at);
    if let Some(start) = first_header(rest, at) {
        lemma_header_moves(prefix, rest, start);
        let xlen = xlen_at(rest, start);
        if start + 12 + xlen <= rest.len() {
            lemma_body_moves(prefix, rest, start + 12 + xlen, bsize_at(rest, start) - xlen - 19);
        }
    }
}

/// Resynchronisation: bytes put in before a block, among which no
/// plausible header starts, do not change what a search from before them
/// finds; the cursor ends that many bytes further on.
pub proof fn lemma_scan_passes_junk(before: Seq<u8>, junk: Seq<u8>, rest: Seq<u8>)
    requires
        forall|j: int| 0 <= j < junk.len() ==> !plausible_header(junk + rest, j),
    ensures
        scan_outcome(before + junk + rest, before.len() as int) == moved(
            scan_outcome(before + rest, before.len() as int),
            junk.len() as int,
        ),
{
    let dirty = junk + rest;
    assert(before + junk + rest =~= before + dirty);
    lemma_scan_moves(before, dirty, 0);
    lemma_scan_moves(before, rest, 0);
    lemma_skip_implausible(dirty, 0, junk.len() as int);
    lemma_scan_moves(junk, rest, 0);
    lemma_first_header_moves(junk, rest, 0);
    lemma_first_header_is_least(rest, 0);
}

/// How reading a block in place ends depends on the bytes from the cursor
/// on alone.
pub proof fn lemma_read_moves(prefix: Seq<u8>, rest: Seq<u8>, at: int)
    requires
        0 <= at,
    ensures
        read_outcome(prefix + rest, prefix.len() + at) == moved(
            read_outcome(rest, at),
            prefix.len() as int,
        ),
{
    let data = prefix + rest;
    let p = prefix.len() as int;
    if at + 12 <= rest.len() {
        assert(data.subrange(p + at + 10, p + at + 12) =~= rest.subrange(at + 10, at + 12));
        let xlen = xlen_at(rest, at);
        if has_gzip_magic(rest, at) && at + 12 + xlen <= rest.len() {
            if xlen >= 6 {
                assert(data.subrange(p + at + 14, p + at + 16) =~= rest.subrange(
                    at + 14,
                    at + 16,
                ));
                assert(data.subrange(p + at + 16, p + at + 18) =~= rest.subrange(
                    at + 16,
                    at + 18,
                ));
            }
            if exact_header(rest, at) {
                lemma_body_moves(prefix, rest, at + 12 + xlen, bsize_at(rest, at) - xlen - 19);
            }
        }
    }
}

/// The state `s` with the cursor `by` bytes further on and `extra` more
/// things given up.
pub open spec fn displaced(s: Run, by: int, extra: int) -> Run {
    Run { pos: s.pos + by, n_corrupted: s.n_corrupted + extra, ..s }
}

/// A step depends on the bytes from the cursor on alone.
pub proof fn lemma_step_moves(
    prefix: Seq<u8>,
    rest: Seq<u8>,
    options: Options,
    s: Run,
    extra: int,
)
    requires
        0 <= s.pos,
    ensures
        step(prefix + rest, options, displaced(s, prefix.len() as int, extra)) == displaced(
            step(rest, options, s),
            prefix.len() as int,
            extra,
        ),
{
    lemma_scan_moves(prefix, rest, s.pos);
    lemma_read_moves(prefix, rest, s.pos);
}

/// A run depends on the bytes from the cursor on alone: with other bytes
/// before the cursor it writes the same and counts the same.
pub proof fn lemma_run_moves(
    prefix: Seq<u8>,
    rest: Seq<u8>,
    options: Options,
    s: Run,
    extra: int,
)
    requires
        in_range(rest, s),
    ensures
        run(prefix + rest, options, displaced(s, prefix.len() as int, extra)) == displaced(
            run(rest, options, s),
            prefix.len() as int,
            extra,
        ),
    decreases
            rest.len() - s.pos,
            s.buffer.len(),
            if s.done {
                0nat
            } else {
                1nat
            },
{
    if !s.done {
        lemma_step_advances(rest, options, s);
        lemma_step_moves(prefix, rest, options, s, extra);
        lemma_run_moves(prefix, rest, options, step(rest, options, s), extra);
    }
}

/// Whether `junk` can be told from a block where it stands before `rest`:
/// it is at least as long as the fixed part of a header, does not open with
/// the gzip identification, and no plausible header starts within it.
pub open spec fn is_junk_before(junk: Seq<u8>, rest: Seq<u8>) -> bool {
    &&& junk.len() >= 12
    &&& !has_gzip_magic(junk, 0)
    &&& forall|j: int| 0 <= j < junk.len() ==> !plausible_header(junk + rest, j)
}

/// Whether `rest` opens with a header that is accepted both by a read in
/// place and by a search.
pub open spec fn opens_with_block(rest: Seq<u8>) -> bool {
    plausible_header(rest, 0) && slen_at(rest, 0) == 2
}

/// Whether a run stands between two blocks: it is going on, reads in place,
/// and holds no bytes of a record that is not yet complete.
pub open spec fn between_blocks(s: Run) -> bool {
    !s.done && !s.scanmode && s.buffer.len() == 0
}

/// Whether two runs came to the same: the same text, the same counters and
/// the same place in the input.
pub open spec fn same_result(a: Run, b: Run) -> bool {
    &&& a.output == b.output
    &&& a.n_sequences == b.n_sequences
    &&& a.n_blocks == b.n_blocks
    &&& a.n_corrupted == b.n_corrupted
    &&& a.pos == b.pos
    &&& a.done == b.done
}

/// Junk in front of an intact block, for a run that stands at the start of
/// the input between two blocks: the run writes the same text and counts
/// the same records and blocks as without the junk; it gives up one thing
/// more, and its cursor ends as many bytes further on as the junk is long.
pub proof fn lemma_run_passes_junk_at_start(
    junk: Seq<u8>,
    rest: Seq<u8>,
    options: Options,
    s: Run,
)
    requires
        is_junk_before(junk, rest),
        opens_with_block(rest),
        between_blocks(s),
        s.pos == 0,
    ensures
        same_result(
            run(junk + rest, options, s),
            displaced(run(rest, options, s), junk.len() as int, 1),
        ),
{
    let dirty = junk + rest;
    let by = junk.len() as int;
    // Without the junk, the block is read in place as a search would find it.
    lemma_first_header_is_least(rest, 0);
    assert(first_header(rest, 0) == Some(0int));
    assert(read_outcome(rest, 0) == scan_outcome(rest, 0));
    let clean_next = step(rest, options, s);
    lemma_step_advances(rest, options, s);
    assert(run(rest, options, s) == run(rest, options, clean_next));
    // With it, the read in place fails on the junk ...
    assert(dirty.subrange(10, 12) =~= junk.subrange(10, 12));
    assert(read_outcome(dirty, 0) == (BlockOutcome {
        result: Err(BamErrorKind::BlockCorrupted),
        end: 12,
    }));
    let failed = step(dirty, options, s);
    lemma_step_advances(dirty, options, s);
    assert(run(dirty, options, s) == run(dirty, options, failed));
    // ... and the search that follows finds the block behind it.
    lemma_skip_implausible(dirty, 12, by);
    lemma_scan_moves(junk, rest, 0);
    assert(first_header(dirty, by) == Some(by)) by {
        lemma_first_header_moves(junk, rest, 0);
    }
    assert(scan_outcome(dirty, 12) == scan_outcome(dirty, by));
    let found = step(dirty, options, failed);
    lemma_step_advances(dirty, options, failed);
    assert(run(dirty, options, failed) == run(dirty, options, found));
    if clean_next.done {
        // The input ends within the block: both runs are over.
        assert(run(rest, options, clean_next) == clean_next);
        assert(run(dirty, options, found) == found);
    } else {
        assert(found.buffer =~= clean_next.buffer);
        assert(found == displaced(clean_next, by, 1));
        lemma_run_moves(junk, rest, options, clean_next, 1);
    }
}

/// Resynchronisation. Bytes that are put in between two blocks, and that
/// can be told from a block, do not change what a run writes from there
/// on, nor the records and blocks that it counts: the run gives up one
/// thing more, and its cursor ends as many bytes further on as were put in.
pub proof fn lemma_run_passes_junk(
    before: Seq<u8>,
    junk: Seq<u8>,
    rest: Seq<u8>,
    options: Options,
    s: Run,
)
    requires
        is_junk_before(junk, rest),
        opens_with_block(rest),
        between_blocks(s),
        s.pos == before.len(),
    ensures
        same_result(
            run(before + junk + rest, options, s),
            displaced(run(before + rest, options, s), junk.len() as int, 1),
        ),
{
    let at_start = Run { pos: 0, ..s };
    let dirty = junk + rest;
    assert(before + junk + rest =~= before + dirty);
    assert(s == displaced(at_start, before.len() as int, 0));
    lemma_run_moves(before, dirty, options, at_start, 0);
    lemma_run_moves(before, rest, options, at_start, 0);
    lemma_run_passes_junk_at_start(junk, rest, options, at_start);
}

} // verus!
