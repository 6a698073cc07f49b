use crate::bgzf::{
    first_header, lemma_first_header_is_least, plausible_header, read_outcome, scan_outcome,
    BlockOutcome,
};
use crate::codec::decode_qual;
use crate::record::{
    drain_pos, fasta_entry, fastq_entry, l_seq, record_bases, record_name, record_quals,
    record_valid,
};
use crate::error::{BamErrorKind, BamHandleError};
use crate::extract::{
    header_outcome, in_range, lemma_step_advances, retrieved, run, start_of_run, step, Counters,
    Options, Run,
};
use vstd::prelude::*;

verus! {

/// The number of places before `upto` where a plausible block header
/// starts.
pub open spec fn header_count(data: Seq<u8>, upto: int) -> nat
    decreases upto,
{
    if upto <= 0 {
        0
    } else {
        header_count(data, upto - 1) + if plausible_header(data, upto - 1) {
            1nat
        } else {
            0nat
        }
    }
}

/// More places hold at least as many headers.
pub proof fn lemma_header_count_grows(data: Seq<u8>, from: int, to: int)
    requires
        from <= to,
    ensures
        header_count(data, from) <= header_count(data, to),
    decreases to - from,
{
    if from < to {
        lemma_header_count_grows(data, from, to - 1);
    }
}

/// A plausible header at `at` is counted from `at + 1` on.
pub proof fn lemma_header_is_counted(data: Seq<u8>, at: int, upto: int)
    requires
        plausible_header(data, at),
        at < upto,
    ensures
        header_count(data, at) + 1 <= header_count(data, upto),
{
    lemma_header_count_grows(data, at + 1, upto);
}

/// Whether the run has given up no more than the headers before its cursor
/// allow: one thing for each header, and while no search is pending, one
/// header is still unused.
pub open spec fn counted_once(data: Seq<u8>, s: Run) -> bool {
    s.n_corrupted + if s.scanmode {
        0int
    } else {
        1int
    } <= header_count(data, s.pos)
}

/// A search that does not end the input passes a plausible header.
proof fn lemma_scan_passes_a_header(data: Seq<u8>, at: int)
    requires
        0 <= at <= data.len(),
        scan_outcome(data, at).result != Err::<Seq<u8>, BamErrorKind>(
            BamErrorKind::BufferTerminated,
        ),
    ensures
        header_count(data, at) + 1 <= header_count(data, scan_outcome(data, at).end),
        at < scan_outcome(data, at).end <= data.len(),
{
    lemma_first_header_is_least(data, at);
    let start = first_header(data, at).unwrap();
    lemma_header_count_grows(data, at, start);
    lemma_header_is_counted(data, start, scan_outcome(data, at).end);
}

/// A step gives nothing up twice.
pub proof fn lemma_step_counts_once(data: Seq<u8>, options: Options, s: Run)
    requires
        in_range(data, s),
        !s.done,
        counted_once(data, s),
    ensures
        counted_once(data, step(data, options, s)),
{
    let next = step(data, options, s);
    lemma_step_advances(data, options, s);
    lemma_header_count_grows(data, s.pos, next.pos);
    if s.scanmode {
        if scan_outcome(data, s.pos).result != Err::<Seq<u8>, BamErrorKind>(
            BamErrorKind::BufferTerminated,
        ) {
            lemma_scan_passes_a_header(data, s.pos);
        }
    }
}

/// A run gives nothing up twice: from a state that has given up no more
/// than the headers before its cursor allow, it ends with no more given up
/// than there are plausible headers in the input.
pub proof fn lemma_run_counts_once(data: Seq<u8>, options: Options, s: Run)
    requires
        in_range(data, s),
        counted_once(data, s),
    ensures
        counted_once(data, run(data, options, s)),
        run(data, options, s).n_corrupted <= header_count(data, data.len() as int),
        in_range(data, run(data, options, s)),
    decreases
            data.len() - s.pos,
            s.buffer.len(),
            if s.done {
                0nat
            } else {
                1nat
            },
{
    if !s.done {
        lemma_step_advances(data, options, s);
        lemma_step_counts_once(data, options, s);
        lemma_run_counts_once(data, options, step(data, options, s));
    } else {
        lemma_header_count_grows(data, s.pos, data.len() as int);
    }
}

/// Where the header block is accepted, the record loop starts within the
/// input, behind the header of that block.
pub proof fn lemma_header_is_behind(data: Seq<u8>)
    ensures
        header_outcome(data) matches Ok(start) ==> 0 < start <= data.len() && header_count(
            data,
            start,
        ) >= 1,
{
    if header_outcome(data) is Ok {
        lemma_scan_passes_a_header(data, 0);
    }
}

/// No double counting: the things that a whole run gives up as damaged are
/// no more than the plausible block headers that the input holds.
pub proof fn lemma_damage_is_bounded_by_headers(data: Seq<u8>, options: Options)
    ensures
        header_outcome(data) matches Ok(start) ==> run(
            data,
            options,
            start_of_run(start),
        ).n_corrupted <= header_count(data, data.len() as int),
{
    if let Ok(start) = header_outcome(data) {
        lemma_header_is_behind(data);
        lemma_run_counts_once(data, options, start_of_run(start));
    }
}

/// A run only ever adds: to each counter, and text behind what is written.
pub proof fn lemma_run_only_adds(data: Seq<u8>, options: Options, s: Run)
    requires
        in_range(data, s),
    ensures
        s.n_sequences <= run(data, options, s).n_sequences,
        s.n_blocks <= run(data, options, s).n_blocks,
        s.n_corrupted <= run(data, options, s).n_corrupted,
        s.output.is_prefix_of(run(data, options, s).output),
    decreases
            data.len() - s.pos,
            s.buffer.len(),
            if s.done {
                0nat
            } else {
                1nat
            },
{
    if !s.done {
        lemma_step_advances(data, options, s);
        lemma_run_only_adds(data, options, step(data, options, s));
    }
}

/// The same run with another limit.
pub open spec fn with_limit(options: Options, limit: u64) -> Options {
    Options { limit, ..options }
}

/// From a state with fewer records written than the limit, a run with the
/// limit writes as many records as a run without one, or as many as the
/// limit, whichever is less; what it writes opens what the other writes,
/// and it counts no more blocks and gives up no more. Where the limit is
/// not reached the two runs end alike.
pub proof fn lemma_limit_from(data: Seq<u8>, options: Options, limit: u64, s: Run)
    requires
        in_range(data, s),
        limit > 0,
        s.n_sequences < limit,
        !s.done,
    ensures
        ({
            let limited = run(data, with_limit(options, limit), s);
            let free = run(data, with_limit(options, 0), s);
            &&& limited.n_sequences == if free.n_sequences < limit {
                free.n_sequences
            } else {
                limit as int
            }
            &&& limited.output.is_prefix_of(free.output)
            &&& limited.n_blocks <= free.n_blocks
            &&& limited.n_corrupted <= free.n_corrupted
            &&& free.n_sequences < limit ==> limited == free
        }),
    decreases data.len() - s.pos, s.buffer.len(), 1nat,
{
    let bounded = with_limit(options, limit);
    let unbounded = with_limit(options, 0);
    let next = step(data, bounded, s);
    let next_free = step(data, unbounded, s);
    lemma_step_advances(data, bounded, s);
    lemma_step_advances(data, unbounded, s);
    assert(next_free == Run { done: next_free.done, ..next });
    assert(run(data, bounded, s) == run(data, bounded, next));
    assert(run(data, unbounded, s) == run(data, unbounded, next_free));
    if next.done {
        assert(run(data, bounded, next) == next);
    }
    if next_free.done {
        assert(run(data, unbounded, next_free) == next_free);
    }
    if next.done && !next_free.done {
        lemma_run_only_adds(data, unbounded, next_free);
    } else if !next.done {
        assert(next == next_free);
        lemma_limit_from(data, options, limit, next);
    }
}

/// With a limit, a run writes exactly as many records as a run without one
/// would, or as many as the limit, whichever is less, and the same text as
/// far as it goes; it counts no more blocks and gives up no more.
pub proof fn lemma_limit_gives_the_lesser(data: Seq<u8>, options: Options, limit: u64)
    requires
        limit > 0,
    ensures
        header_outcome(data) matches Ok(start) ==> ({
            let limited = run(data, with_limit(options, limit), start_of_run(start));
            let free = run(data, with_limit(options, 0), start_of_run(start));
            &&& limited.n_sequences == if free.n_sequences < limit {
                free.n_sequences
            } else {
                limit as int
            }
            &&& limited.output.is_prefix_of(free.output)
            &&& limited.n_blocks <= free.n_blocks
            &&& limited.n_corrupted <= free.n_corrupted
        }),
{
    if let Ok(start) = header_outcome(data) {
        lemma_header_is_behind(data);
        lemma_limit_from(data, options, limit, start_of_run(start));
    }
}

/// A run never writes more records than its limit.
pub proof fn lemma_limit_is_kept(data: Seq<u8>, options: Options)
    requires
        options.limit > 0,
    ensures
        header_outcome(data) matches Ok(start) ==> run(
            data,
            options,
            start_of_run(start),
        ).n_sequences <= options.limit,
{
    if let Ok(start) = header_outcome(data) {
        lemma_limit_gives_the_lesser(data, options, options.limit);
        assert(with_limit(options, options.limit) == options);
    }
}

/// Two runs on the same input with the same options, into sinks that hold
/// the same bytes, return the same and leave the same bytes.
pub proof fn lemma_runs_agree(
    data: Seq<u8>,
    options: Options,
    before: Seq<u8>,
    first: Result<Counters, BamHandleError>,
    first_after: Seq<u8>,
    second: Result<Counters, BamHandleError>,
    second_after: Seq<u8>,
)
    requires
        retrieved(data, options, before, first, first_after),
        retrieved(data, options, before, second, second_after),
    ensures
        first == second,
        first_after == second_after,
{
}

/// At the end of the input both ways of looking for a block report the end
/// of the input, and leave the cursor there.
pub proof fn lemma_end_of_input_is_final(data: Seq<u8>)
    ensures
        read_outcome(data, data.len() as int) == (BlockOutcome {
            result: Err(BamErrorKind::BufferTerminated),
            end: data.len() as int,
        }),
        scan_outcome(data, data.len() as int) == (BlockOutcome {
            result: Err(BamErrorKind::BufferTerminated),
            end: data.len() as int,
        }),
{
}

/// A step writes nothing, or one whole entry for the record at the head of
/// the buffer: a valid record, all of whose bytes are buffered, written
/// with as many base letters as it declares bases and, where qualities are
/// written, as many quality characters.
pub proof fn lemma_step_writes_whole_entries(data: Seq<u8>, options: Options, s: Run)
    requires
        !s.done,
    ensures
        ({
            let next = step(data, options, s);
            let name = record_name(s.buffer);
            let bases = record_bases(s.buffer);
            let qual_text = decode_qual(record_quals(s.buffer));
            ||| next.n_sequences == s.n_sequences && next.output == s.output
            ||| {
                &&& next.n_sequences == s.n_sequences + 1
                &&& !s.scanmode
                &&& s.buffer.len() >= 36
                &&& record_valid(s.buffer, options.noqual)
                &&& s.buffer.len() >= drain_pos(s.buffer)
                &&& bases.len() == l_seq(s.buffer)
                &&& next.output == s.output + if options.noqual {
                    fasta_entry(name, bases)
                } else {
                    fastq_entry(name, bases, qual_text)
                }
                &&& !options.noqual ==> qual_text.len() == l_seq(s.buffer)
            }
        }),
{
}

} // verus!
