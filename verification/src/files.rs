use crate::bgzf::{
    bsize_at, first_header, has_gzip_magic, lemma_first_header_is_least, lemma_skip_implausible,
    payload_outcome, plausible_header, read_outcome, scan_outcome, slen_at, xlen_at,
    BlockOutcome,
};
use crate::error::BamErrorKind;
use crate::extract::{
    has_bam_magic, header_outcome, in_range, lemma_step_advances, run, start_of_run, step,
    Options, Run,
};
use crate::le::le_u32_at;
use crate::record::{drain_pos, record_valid, render};
use crate::theorems::lemma_run_only_adds;
use vstd::prelude::*;

verus! {

/// Where the block that starts at `at` ends, by the size that it declares.
pub open spec fn member_end(data: Seq<u8>, at: int) -> int {
    at + bsize_at(data, at) + 1
}

/// Whether a whole, intact block with the payload `payload` starts at `at`:
/// its header is accepted by a read in place and by a search, all its bytes
/// are there, and its compressed bytes give `payload` and agree with the
/// trailer.
pub open spec fn member_at(data: Seq<u8>, at: int, payload: Seq<u8>) -> bool {
    &&& plausible_header(data, at)
    &&& slen_at(data, at) == 2
    &&& member_end(data, at) <= data.len()
    &&& payload_outcome(
        data.subrange(at + 12 + xlen_at(data, at), member_end(data, at) - 8),
        le_u32_at(data, member_end(data, at) - 8),
        le_u32_at(data, member_end(data, at) - 4),
    ) == Ok::<Seq<u8>, BamErrorKind>(payload)
}

/// An intact block is returned whole, whether it is read in place or
/// searched for from its start.
pub proof fn lemma_member_is_read(data: Seq<u8>, at: int, payload: Seq<u8>)
    requires
        member_at(data, at, payload),
    ensures
        read_outcome(data, at) == (BlockOutcome { result: Ok(payload), end: member_end(data, at) }),
        scan_outcome(data, at) == read_outcome(data, at),
        at < member_end(data, at),
{
    lemma_first_header_is_least(data, at);
    assert(first_header(data, at) == Some(at));
}

/// Whether the `len` bytes from `at` on are a gap that no block is taken
/// from: there are none; or they are at least as many as the fixed part of
/// a header, do not open with the gzip identification, and no plausible
/// header starts among them.
pub open spec fn gap_at(data: Seq<u8>, at: int, len: int) -> bool {
    ||| len == 0
    ||| {
        &&& len >= 12
        &&& at + len <= data.len()
        &&& !has_gzip_magic(data, at)
        &&& forall|j: int| at <= j < at + len ==> !plausible_header(data, j)
    }
}

/// One piece of a file: a gap, which may be empty, and the intact block
/// behind it, given by its payload.
pub struct Part {
    pub gap: int,
    pub payload: Seq<u8>,
}

/// Whether `data` from `at` up to `until` is made of `parts`, one behind the
/// other, and nothing else.
pub open spec fn laid_out_until(data: Seq<u8>, at: int, parts: Seq<Part>, until: int) -> bool
    decreases parts.len(),
{
    if parts.len() == 0 {
        at == until
    } else {
        &&& 0 <= at
        &&& gap_at(data, at, parts[0].gap)
        &&& member_at(data, at + parts[0].gap, parts[0].payload)
        &&& laid_out_until(data, member_end(data, at + parts[0].gap), parts.drop_first(), until)
    }
}

/// Whether `data` from `at` on is made of `parts`, one behind the other,
/// and nothing else.
pub open spec fn laid_out(data: Seq<u8>, at: int, parts: Seq<Part>) -> bool {
    laid_out_until(data, at, parts, data.len() as int)
}

/// Whether `buffer` is made of whole records, each as long as it declares
/// and no shorter than its fixed part.
pub open spec fn whole_frames(buffer: Seq<u8>) -> bool
    decreases buffer.len(),
{
    buffer.len() == 0 || (buffer.len() >= 36 && 36 <= drain_pos(buffer) <= buffer.len()
        && whole_frames(buffer.skip(drain_pos(buffer))))
}

/// The number of records that `buffer` is made of.
pub open spec fn frame_count(buffer: Seq<u8>) -> nat
    decreases buffer.len(),
{
    if buffer.len() >= 36 && 36 <= drain_pos(buffer) <= buffer.len() {
        1 + frame_count(buffer.skip(drain_pos(buffer)))
    } else {
        0
    }
}

/// What comes of the records that a buffer holds.
pub struct Drained {
    /// The text written for them.
    pub text: Seq<u8>,
    /// How many are written.
    pub count: int,
    /// Whether one of them was given up, and the rest with it.
    pub gave_up: bool,
    /// Whether the limit of the run was reached.
    pub full: bool,
    /// The bytes that are left in the buffer.
    pub left: Seq<u8>,
}

/// What comes of a buffer of whole records in a run that has written
/// `written` records: each is written in turn, up to the first that is not
/// valid or has a quality value without a printable form, or until the
/// limit is reached.
pub open spec fn drained(buffer: Seq<u8>, options: Options, written: int) -> Drained
    decreases buffer.len(),
{
    let gave_up = Drained {
        text: Seq::empty(),
        count: 0,
        gave_up: true,
        full: false,
        left: Seq::empty(),
    };
    if buffer.len() < 36 {
        Drained { text: Seq::empty(), count: 0, gave_up: false, full: false, left: buffer }
    } else if !record_valid(buffer, options.noqual) || drain_pos(buffer) > buffer.len() {
        gave_up
    } else {
        match render(buffer, options.noqual) {
            None => gave_up,
            Some(text) => {
                let left = buffer.skip(drain_pos(buffer));
                if options.limit > 0 && written + 1 >= options.limit {
                    Drained { text, count: 1, gave_up: false, full: true, left }
                } else {
                    let rest = drained(left, options, written + 1);
                    Drained { text: text + rest.text, count: 1 + rest.count, ..rest }
                }
            },
        }
    }
}

/// The state `s` once the records in its buffer are dealt with as `d` says.
pub open spec fn after_drain(s: Run, d: Drained) -> Run {
    Run {
        buffer: d.left,
        scanmode: d.gave_up,
        output: s.output + d.text,
        n_sequences: s.n_sequences + d.count,
        n_corrupted: s.n_corrupted + if d.gave_up {
            1int
        } else {
            0int
        },
        done: d.full,
        ..s
    }
}

/// No more records are written than the buffer holds; while the run goes
/// on, nothing is left in a buffer of whole records.
pub proof fn lemma_drained_is_bounded(buffer: Seq<u8>, options: Options, written: int)
    requires
        whole_frames(buffer),
    ensures
        0 <= drained(buffer, options, written).count <= frame_count(buffer),
        !drained(buffer, options, written).full ==> drained(buffer, options, written).left.len()
            == 0,
        drained(buffer, options, written).gave_up ==> !drained(buffer, options, written).full,
        options.limit == 0 ==> !drained(buffer, options, written).full,
    decreases buffer.len(),
{
    if buffer.len() >= 36 {
        lemma_drained_is_bounded(buffer.skip(drain_pos(buffer)), options, written + 1);
    }
}

/// A run that holds whole records in its buffer deals with them, up to its
/// limit, before it looks for the next block.
pub proof fn lemma_run_drains(data: Seq<u8>, options: Options, s: Run)
    requires
        in_range(data, s),
        !s.done,
        !s.scanmode,
        whole_frames(s.buffer),
    ensures
        run(data, options, s) == run(
            data,
            options,
            after_drain(s, drained(s.buffer, options, s.n_sequences)),
        ),
    decreases s.buffer.len(),
{
    let d = drained(s.buffer, options, s.n_sequences);
    let end = after_drain(s, d);
    if s.buffer.len() == 0 {
        assert(end.output =~= s.output);
        assert(end == s);
    } else {
        let next = step(data, options, s);
        assert(run(data, options, s) == run(data, options, next));
        if !record_valid(s.buffer, options.noqual) || render(s.buffer, options.noqual) is None {
            assert(end.output =~= next.output);
            assert(end == next);
        } else if next.done {
            assert(end == next);
        } else {
            let rest = drained(next.buffer, options, next.n_sequences);
            lemma_run_drains(data, options, next);
            let after = after_drain(next, rest);
            assert(after.output =~= end.output);
            assert(after == end);
        }
    }
}

/// Whether every payload of `parts` is made of whole records.
pub open spec fn hold_whole_records(parts: Seq<Part>) -> bool {
    forall|i: int| 0 <= i < parts.len() ==> whole_frames(#[trigger] parts[i].payload)
}

/// A search from the start of a part finds its block.
proof fn lemma_part_is_found(data: Seq<u8>, at: int, from: int, part: Part)
    requires
        0 <= at <= from <= at + part.gap,
        gap_at(data, at, part.gap),
        member_at(data, at + part.gap, part.payload),
    ensures
        scan_outcome(data, from) == (BlockOutcome {
            result: Ok(part.payload),
            end: member_end(data, at + part.gap),
        }),
{
    lemma_skip_implausible(data, from, at + part.gap);
    lemma_member_is_read(data, at + part.gap, part.payload);
    lemma_first_header_is_least(data, at + part.gap);
}

/// The state `s` once the block of `part`, which lies before it, is taken
/// in: the payload is buffered and the block counted; one thing is given up
/// where the gap was met by a read in place.
pub open spec fn taken_in(data: Seq<u8>, s: Run, part: Part) -> Run {
    Run {
        pos: member_end(data, s.pos + part.gap),
        buffer: part.payload,
        scanmode: false,
        n_blocks: s.n_blocks + 1,
        n_corrupted: s.n_corrupted + if !s.scanmode && part.gap > 0 {
            1int
        } else {
            0int
        },
        ..s
    }
}

/// A run that stands before a part, with no bytes of a record, takes in the
/// block of that part: a read in place fails on a gap, and the search that
/// follows finds the block.
pub proof fn lemma_part_is_taken(data: Seq<u8>, options: Options, s: Run, part: Part)
    requires
        !s.done,
        s.buffer.len() == 0,
        0 <= s.pos <= data.len(),
        gap_at(data, s.pos, part.gap),
        member_at(data, s.pos + part.gap, part.payload),
    ensures
        run(data, options, s) == run(data, options, taken_in(data, s, part)),
        s.pos < taken_in(data, s, part).pos <= data.len(),
{
    let next = step(data, options, s);
    lemma_step_advances(data, options, s);
    assert(run(data, options, s) == run(data, options, next));
    lemma_member_is_read(data, s.pos + part.gap, part.payload);
    lemma_part_is_found(data, s.pos, s.pos, part);
    let taken = taken_in(data, s, part);
    if !s.scanmode && part.gap > 0 {
        assert(data.subrange(s.pos + 10, s.pos + 12).len() == 2);
        assert(read_outcome(data, s.pos) == (BlockOutcome {
            result: Err(BamErrorKind::BlockCorrupted),
            end: s.pos + 12,
        }));
        lemma_part_is_found(data, s.pos, s.pos + 12, part);
        let found = step(data, options, next);
        lemma_step_advances(data, options, next);
        assert(run(data, options, next) == run(data, options, found));
        assert(found.buffer =~= taken.buffer);
        assert(found == taken);
    } else {
        assert(next.buffer =~= taken.buffer);
        assert(next == taken);
    }
}

/// The state `s` once the block of `part` is taken in and its records are
/// dealt with.
pub open spec fn after_part(data: Seq<u8>, options: Options, s: Run, part: Part) -> Run {
    let taken = taken_in(data, s, part);
    after_drain(taken, drained(part.payload, options, taken.n_sequences))
}

/// The state to which a run comes from `s` over `parts`: block by block,
/// until the limit is reached or the parts are at an end.
pub open spec fn over_parts(data: Seq<u8>, options: Options, s: Run, parts: Seq<Part>) -> Run
    decreases parts.len(),
{
    if parts.len() == 0 || s.done {
        s
    } else {
        over_parts(data, options, after_part(data, options, s, parts[0]), parts.drop_first())
    }
}

/// A run that stands before intact blocks, each holding whole records, with
/// gaps between them: the run reads block after block and deals with its
/// records, as `over_parts` says. It stops where its limit is reached; else
/// it comes to the place behind the last block, with no bytes of a record
/// left.
pub proof fn lemma_run_over_parts(
    data: Seq<u8>,
    options: Options,
    s: Run,
    parts: Seq<Part>,
    until: int,
)
    requires
        !s.done,
        s.buffer.len() == 0,
        laid_out_until(data, s.pos, parts, until),
        hold_whole_records(parts),
        0 <= s.pos <= data.len(),
    ensures
        s.pos <= until <= data.len(),
        run(data, options, s) == run(data, options, over_parts(data, options, s, parts)),
        in_range(data, over_parts(data, options, s, parts)),
        !over_parts(data, options, s, parts).done ==> over_parts(data, options, s, parts).pos
            == until && over_parts(data, options, s, parts).buffer.len() == 0,
        options.limit == 0 ==> !over_parts(data, options, s, parts).done,
    decreases parts.len(),
{
    if parts.len() > 0 {
        let taken = taken_in(data, s, parts[0]);
        lemma_part_is_taken(data, options, s, parts[0]);
        assert(whole_frames(parts[0].payload));
        lemma_run_drains(data, options, taken);
        lemma_drained_is_bounded(parts[0].payload, options, taken.n_sequences);
        let emptied = after_part(data, options, s, parts[0]);
        let rest = parts.drop_first();
        assert forall|i: int| 0 <= i < rest.len() implies whole_frames(
            #[trigger] rest[i].payload,
        ) by {
            assert(rest[i] == parts[i + 1]);
        }
        if !emptied.done {
            lemma_run_over_parts(data, options, emptied, rest, until);
        } else {
            lemma_laid_out_is_in_range(data, emptied.pos, rest, until);
        }
    }
}

/// Parts that are laid out end within the data.
pub proof fn lemma_laid_out_is_in_range(data: Seq<u8>, at: int, parts: Seq<Part>, until: int)
    requires
        0 <= at <= data.len(),
        laid_out_until(data, at, parts, until),
    ensures
        at <= until <= data.len(),
    decreases parts.len(),
{
    if parts.len() > 0 {
        lemma_member_is_read(data, at + parts[0].gap, parts[0].payload);
        lemma_laid_out_is_in_range(
            data,
            member_end(data, at + parts[0].gap),
            parts.drop_first(),
            until,
        );
    }
}

/// Whether `data` is a file made of `parts`: it is laid out as they say,
/// the first of them is the header block, whose payload opens with
/// `BAM\1`, and the others hold whole records.
pub open spec fn is_file(data: Seq<u8>, parts: Seq<Part>) -> bool {
    &&& parts.len() >= 1
    &&& laid_out(data, 0, parts)
    &&& has_bam_magic(parts[0].payload)
    &&& hold_whole_records(parts.drop_first())
}

/// Where the record loop starts in a file of `parts`.
pub open spec fn start_of_file(data: Seq<u8>, parts: Seq<Part>) -> Run {
    start_of_run(member_end(data, parts[0].gap))
}

/// The state `s` with the run over, if it was not.
pub open spec fn finished(s: Run) -> Run {
    Run { done: true, ..s }
}

/// The state in which a run over a file of `parts` ends.
pub open spec fn end_of_file(data: Seq<u8>, options: Options, parts: Seq<Part>) -> Run {
    finished(over_parts(data, options, start_of_file(data, parts), parts.drop_first()))
}

/// The header block of a file is accepted, and the record loop starts
/// behind it.
pub proof fn lemma_header_is_accepted(data: Seq<u8>, parts: Seq<Part>, until: int)
    requires
        parts.len() >= 1,
        laid_out_until(data, 0, parts, until),
        has_bam_magic(parts[0].payload),
    ensures
        header_outcome(data) == Ok::<int, BamErrorKind>(member_end(data, parts[0].gap)),
        0 < member_end(data, parts[0].gap) <= data.len(),
        laid_out_until(data, member_end(data, parts[0].gap), parts.drop_first(), until),
{
    let header = parts[0];
    lemma_part_is_found(data, 0, 0, header);
    lemma_member_is_read(data, header.gap, header.payload);
}

/// A run over a file, with or without a limit: the header block is
/// accepted, the run goes over the blocks behind it as `over_parts` says,
/// and ends where its limit is reached or at the end of the file.
pub proof fn lemma_run_over_file(data: Seq<u8>, options: Options, parts: Seq<Part>)
    requires
        is_file(data, parts),
    ensures
        header_outcome(data) matches Ok(start) && run(data, options, start_of_run(start))
            == end_of_file(data, options, parts),
        options.limit == 0 ==> end_of_file(data, options, parts).pos == data.len(),
{
    let until = data.len() as int;
    lemma_header_is_accepted(data, parts, until);
    let s = start_of_file(data, parts);
    lemma_run_over_parts(data, options, s, parts.drop_first(), until);
    let last = over_parts(data, options, s, parts.drop_first());
    if last.done {
        assert(run(data, options, last) == last);
    } else {
        // At the end of the file the next block is looked for in vain.
        let over = step(data, options, last);
        assert(run(data, options, last) == run(data, options, over));
        assert(over == finished(last));
    }
}

/// The number of records that the payloads of `parts` are made of.
pub open spec fn record_total(parts: Seq<Part>) -> nat
    decreases parts.len(),
{
    if parts.len() == 0 {
        0
    } else {
        frame_count(parts[0].payload) + record_total(parts.drop_first())
    }
}

/// Whether the blocks of `parts` stand one behind the other, with no gap.
pub open spec fn no_gaps(parts: Seq<Part>) -> bool {
    forall|i: int| 0 <= i < parts.len() ==> (#[trigger] parts[i]).gap == 0
}

/// Over `parts`, a run counts each block at most once, writes no more
/// records than the blocks hold, and gives up at most two things for each
/// part: one for its gap and one for its records. Without gaps it gives up
/// at most one.
pub proof fn lemma_parts_are_counted_once(
    data: Seq<u8>,
    options: Options,
    s: Run,
    parts: Seq<Part>,
)
    requires
        hold_whole_records(parts),
    ensures
        ({
            let end = over_parts(data, options, s, parts);
            &&& s.n_blocks <= end.n_blocks <= s.n_blocks + parts.len()
            &&& s.n_sequences <= end.n_sequences <= s.n_sequences + record_total(parts)
            &&& s.n_corrupted <= end.n_corrupted <= s.n_corrupted + 2 * parts.len()
            &&& no_gaps(parts) ==> end.n_corrupted <= s.n_corrupted + parts.len()
            &&& end.scanmode && !s.scanmode ==> end.n_corrupted >= s.n_corrupted + 1
        }),
    decreases parts.len(),
{
    if parts.len() > 0 && !s.done {
        let taken = taken_in(data, s, parts[0]);
        assert(whole_frames(parts[0].payload));
        lemma_drained_is_bounded(parts[0].payload, options, taken.n_sequences);
        let next = after_part(data, options, s, parts[0]);
        let rest = parts.drop_first();
        assert forall|i: int| 0 <= i < rest.len() implies whole_frames(
            #[trigger] rest[i].payload,
        ) by {
            assert(rest[i] == parts[i + 1]);
        }
        lemma_parts_are_counted_once(data, options, next, rest);
        if no_gaps(parts) {
            assert(parts[0].gap == 0);
            assert forall|i: int| 0 <= i < rest.len() implies (#[trigger] rest[i]).gap == 0 by {
                assert(rest[i] == parts[i + 1]);
            }
        }
    }
}

/// No double counting. Over a file of intact blocks that stand one behind
/// the other and hold whole records, a run, with or without a limit, writes
/// no more records than the file holds and gives up no more things than the
/// file has blocks: the records written and the things given up are
/// together no more than the records and the blocks of the file.
pub proof fn lemma_file_counts_once(data: Seq<u8>, options: Options, parts: Seq<Part>)
    requires
        is_file(data, parts),
        no_gaps(parts),
    ensures
        header_outcome(data) matches Ok(start) && ({
            let end = run(data, options, start_of_run(start));
            &&& end.n_sequences <= record_total(parts.drop_first())
            &&& end.n_corrupted <= parts.len() - 1
            &&& end.n_blocks <= parts.len() - 1
            &&& end.n_sequences + end.n_corrupted <= record_total(parts.drop_first())
                + parts.len()
        }),
{
    lemma_run_over_file(data, options, parts);
    let rest = parts.drop_first();
    assert forall|i: int| 0 <= i < rest.len() implies (#[trigger] rest[i]).gap == 0 by {
        assert(rest[i] == parts[i + 1]);
    }
    lemma_parts_are_counted_once(data, options, start_of_file(data, parts), rest);
}

/// Whether two files are made of blocks with the same payloads, whatever
/// the gaps between them.
pub open spec fn same_payloads(a: Seq<Part>, b: Seq<Part>) -> bool {
    &&& a.len() == b.len()
    &&& forall|i: int| 0 <= i < a.len() ==> (#[trigger] a[i]).payload == b[i].payload
}

/// Whether two runs have written and counted the same, and hold the same
/// bytes: all but the place in the input and the things given up.
pub open spec fn same_yield(a: Run, b: Run) -> bool {
    &&& a.output == b.output
    &&& a.n_sequences == b.n_sequences
    &&& a.n_blocks == b.n_blocks
    &&& a.buffer == b.buffer
    &&& a.done == b.done
}

/// What a run writes and counts over parts depends on the payloads alone,
/// not on the gaps nor on the bytes of the blocks.
pub proof fn lemma_yield_ignores_gaps(
    clean: Seq<u8>,
    dirty: Seq<u8>,
    options: Options,
    s: Run,
    t: Run,
    a: Seq<Part>,
    b: Seq<Part>,
)
    requires
        same_payloads(a, b),
        same_yield(s, t),
    ensures
        same_yield(over_parts(clean, options, s, a), over_parts(dirty, options, t, b)),
    decreases a.len(),
{
    if a.len() > 0 && !s.done {
        assert(a[0].payload == b[0].payload);
        assert forall|i: int| 0 <= i < a.drop_first().len() implies (
        #[trigger] a.drop_first()[i]).payload == b.drop_first()[i].payload by {
            assert(a.drop_first()[i] == a[i + 1]);
            assert(b.drop_first()[i] == b[i + 1]);
        }
        lemma_yield_ignores_gaps(
            clean,
            dirty,
            options,
            after_part(clean, options, s, a[0]),
            after_part(dirty, options, t, b[0]),
            a.drop_first(),
            b.drop_first(),
        );
    }
}

/// Resynchronisation over whole files. Two files that are made of the same
/// intact blocks, with bytes put in between the blocks of one of them that
/// can be told from a block, give the same text, the same records and the
/// same blocks, with or without a limit.
pub proof fn lemma_gaps_change_no_text(
    clean: Seq<u8>,
    dirty: Seq<u8>,
    options: Options,
    clean_parts: Seq<Part>,
    dirty_parts: Seq<Part>,
)
    requires
        is_file(clean, clean_parts),
        is_file(dirty, dirty_parts),
        same_payloads(clean_parts, dirty_parts),
    ensures
        header_outcome(clean) matches Ok(clean_start) && header_outcome(dirty) matches Ok(
            dirty_start,
        ) && ({
            let a = run(clean, options, start_of_run(clean_start));
            let b = run(dirty, options, start_of_run(dirty_start));
            &&& a.output == b.output
            &&& a.n_sequences == b.n_sequences
            &&& a.n_blocks == b.n_blocks
        }),
{
    lemma_run_over_file(clean, options, clean_parts);
    lemma_run_over_file(dirty, options, dirty_parts);
    let a = clean_parts.drop_first();
    let b = dirty_parts.drop_first();
    assert forall|i: int| 0 <= i < a.len() implies (#[trigger] a[i]).payload == b[i].payload by {
        assert(a[i] == clean_parts[i + 1]);
        assert(b[i] == dirty_parts[i + 1]);
    }
    lemma_yield_ignores_gaps(
        clean,
        dirty,
        options,
        start_of_file(clean, clean_parts),
        start_of_file(dirty, dirty_parts),
        a,
        b,
    );
}

/// Damage behind intact blocks. In a file that opens with a header block
/// and intact blocks of whole records, and then holds bytes that cannot be
/// read as a block, a run without a limit is not given up: the header is
/// accepted, and the run counts at least one thing as damaged.
pub proof fn lemma_damage_is_counted(
    data: Seq<u8>,
    options: Options,
    parts: Seq<Part>,
    until: int,
)
    requires
        parts.len() >= 1,
        laid_out_until(data, 0, parts, until),
        has_bam_magic(parts[0].payload),
        hold_whole_records(parts.drop_first()),
        options.limit == 0,
        read_outcome(data, until).result is Err,
        read_outcome(data, until).result != Err::<Seq<u8>, BamErrorKind>(
            BamErrorKind::BufferTerminated,
        ),
    ensures
        header_outcome(data) matches Ok(start) && run(
            data,
            options,
            start_of_run(start),
        ).n_corrupted >= 1,
{
    lemma_header_is_accepted(data, parts, until);
    let s = start_of_file(data, parts);
    let rest = parts.drop_first();
    lemma_run_over_parts(data, options, s, rest, until);
    lemma_parts_are_counted_once(data, options, s, rest);
    let reached = over_parts(data, options, s, rest);
    if reached.scanmode {
        // A search is pending only where something was given up before.
        lemma_run_only_adds(data, options, reached);
    } else {
        let next = step(data, options, reached);
        lemma_step_advances(data, options, reached);
        assert(run(data, options, reached) == run(data, options, next));
        lemma_run_only_adds(data, options, next);
    }
}

} // verus!
