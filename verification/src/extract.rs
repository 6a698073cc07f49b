use crate::bgzf::{
    agrees, lemma_first_header_is_least, read_next_block, read_outcome, scan_next_block,
    scan_outcome, BlockOutcome,
};
use crate::error::{BamErrorKind, BamHandleError};
use crate::record::{drain_pos, emit_record, parse_layout, record_valid, render};
use crate::source::ByteSource;
use vstd::prelude::*;

verus! {

/// What the caller asks of a run.
#[derive(Clone, Copy, Debug, PartialEq, Eq, Structural)]
pub struct Options {
    /// The number of records after which the run ends; 0 for no limit.
    pub limit: u64,
    /// Whether FASTA is written, without quality values, in place of FASTQ.
    pub noqual: bool,
}

/// What a run has counted.
#[derive(Clone, Copy, Debug, PartialEq, Eq, Structural)]
pub struct Counters {
    /// Records written.
    pub n_sequences: u64,
    /// Blocks read and accepted after the header block.
    pub n_blocks: u64,
    /// Blocks and records given up as damaged.
    pub n_corrupted: u64,
}

/// The state of a run, as a mathematical value.
pub struct Run {
    /// How many bytes of the input are consumed.
    pub pos: int,
    /// The inflated bytes that are not yet consumed.
    pub buffer: Seq<u8>,
    /// Whether the next block has to be searched for.
    pub scanmode: bool,
    /// The text written so far.
    pub output: Seq<u8>,
    pub n_sequences: int,
    pub n_blocks: int,
    pub n_corrupted: int,
    /// Whether the run is over.
    pub done: bool,
}

/// The first four bytes of the first block of an alignment file: `BAM\1`.
pub open spec fn has_bam_magic(payload: Seq<u8>) -> bool {
    payload.len() >= 4 && payload[0] == 66 && payload[1] == 65 && payload[2] == 77 && payload[3]
        == 1
}

/// How reading the header block ends: where the cursor then stands, or why
/// there is no run.
pub open spec fn header_outcome(data: Seq<u8>) -> Result<int, BamErrorKind> {
    match scan_outcome(data, 0).result {
        Err(kind) => Err(kind),
        Ok(payload) => if has_bam_magic(payload) {
            Ok(scan_outcome(data, 0).end)
        } else {
            Err(BamErrorKind::IncorrectMagicNumber)
        },
    }
}

/// The state in which the record loop starts, with the cursor at `pos`.
pub open spec fn start_of_run(pos: int) -> Run {
    Run {
        pos,
        buffer: Seq::empty(),
        scanmode: false,
        output: Seq::empty(),
        n_sequences: 0,
        n_blocks: 0,
        n_corrupted: 0,
        done: false,
    }
}

/// The state after a block was looked for and `outcome` came back, with
/// `kept` the buffered bytes that a payload is added to. The end of the
/// input ends the run; any other failure is counted, drops what is
/// buffered, and has the next block searched for.
pub open spec fn after_block(s: Run, kept: Seq<u8>, outcome: BlockOutcome) -> Run {
    match outcome.result {
        Ok(payload) => Run {
            pos: outcome.end,
            buffer: kept + payload,
            scanmode: false,
            n_blocks: s.n_blocks + 1,
            ..s
        },
        Err(BamErrorKind::BufferTerminated) => Run { pos: outcome.end, done: true, ..s },
        Err(_) => Run {
            pos: outcome.end,
            buffer: Seq::empty(),
            scanmode: true,
            n_corrupted: s.n_corrupted + 1,
            ..s
        },
    }
}

/// The state after the record at the head of the buffer is dealt with, all
/// its bytes being there: written and drained, or given up where a quality
/// value has no printable form.
pub open spec fn after_record(options: Options, s: Run) -> Run {
    match render(s.buffer, options.noqual) {
        Some(text) => Run {
            buffer: s.buffer.skip(drain_pos(s.buffer)),
            output: s.output + text,
            n_sequences: s.n_sequences + 1,
            done: options.limit > 0 && s.n_sequences + 1 >= options.limit,
            ..s
        },
        None => Run {
            buffer: Seq::empty(),
            scanmode: true,
            n_corrupted: s.n_corrupted + 1,
            ..s
        },
    }
}

/// One step of a run. In scan mode the next block is searched for and
/// replaces the buffer. Else, while the buffer holds the fixed part of a
/// record, that record is dealt with: given up where the fixed part is not
/// valid, written where all its bytes are there; where bytes are missing, or
/// no fixed part is there, the next block is read and added to the buffer.
pub open spec fn step(data: Seq<u8>, options: Options, s: Run) -> Run {
    if s.scanmode {
        after_block(s, Seq::empty(), scan_outcome(data, s.pos))
    } else if s.buffer.len() >= 36 {
        if !record_valid(s.buffer, options.noqual) {
            Run {
                buffer: Seq::empty(),
                scanmode: true,
                n_corrupted: s.n_corrupted + 1,
                ..s
            }
        } else if s.buffer.len() < drain_pos(s.buffer) {
            after_block(s, s.buffer, read_outcome(data, s.pos))
        } else {
            after_record(options, s)
        }
    } else {
        after_block(s, s.buffer, read_outcome(data, s.pos))
    }
}

/// The cursor lies within the input.
pub open spec fn in_range(data: Seq<u8>, s: Run) -> bool {
    0 <= s.pos <= data.len()
}

/// Whether going from `s` to `next` is progress: the cursor has moved on;
/// or it stands and the buffer is shorter; or both stand and the run is
/// over.
pub open spec fn is_progress(s: Run, next: Run) -> bool {
    ||| next.pos > s.pos
    ||| next.pos == s.pos && next.buffer.len() < s.buffer.len()
    ||| next.pos == s.pos && next.buffer.len() == s.buffer.len() && next.done
}

/// A step keeps the cursor within the input and is progress.
pub proof fn lemma_step_advances(data: Seq<u8>, options: Options, s: Run)
    requires
        in_range(data, s),
        !s.done,
    ensures
        in_range(data, step(data, options, s)),
        is_progress(s, step(data, options, s)),
{
    lemma_first_header_is_least(data, s.pos);
}

/// The state in which a run that is in state `s` ends.
pub open spec fn run(data: Seq<u8>, options: Options, s: Run) -> Run
    decreases
            data.len() - s.pos,
            s.buffer.len(),
            if s.done {
                0nat
            } else {
                1nat
            },
    when in_range(data, s)
    via run_decreases
{
    if s.done {
        s
    } else {
        run(data, options, step(data, options, s))
    }
}

#[via_fn]
proof fn run_decreases(data: Seq<u8>, options: Options, s: Run) {
    if !s.done {
        lemma_step_advances(data, options, s);
    }
}

/// A run in progress: the input with its cursor, the inflated bytes not yet
/// consumed, the text written, the mode and the counters.
pub struct Extractor {
    pub source: ByteSource,
    pub buffer: Vec<u8>,
    pub written: Vec<u8>,
    pub scanmode: bool,
    pub counters: Counters,
    pub done: bool,
}

impl Extractor {
    /// The state of this run as a mathematical value.
    pub open spec fn state(&self) -> Run {
        Run {
            pos: self.source.pos as int,
            buffer: self.buffer@,
            scanmode: self.scanmode,
            output: self.written@,
            n_sequences: self.counters.n_sequences as int,
            n_blocks: self.counters.n_blocks as int,
            n_corrupted: self.counters.n_corrupted as int,
            done: self.done,
        }
    }

    /// The cursor lies within the input, and nothing is counted twice: each
    /// block read has consumed input, each record written has left text, and
    /// each thing given up had a block read before it or consumed input
    /// itself.
    pub open spec fn wf(&self) -> bool {
        &&& self.source.wf()
        &&& self.counters.n_blocks <= self.source.pos
        &&& self.counters.n_sequences <= self.written@.len()
        &&& self.counters.n_corrupted + if self.scanmode {
            0int
        } else {
            1int
        } <= self.source.pos
    }

    /// Reads the header block of `data`, which must open with `BAM\1`, and
    /// gives the run that starts after it.
    pub fn open(data: Vec<u8>) -> (opened: Result<Extractor, BamHandleError>)
        ensures
            match opened {
                Ok(extractor) => header_outcome(data@) == Ok::<int, BamErrorKind>(
                    extractor.source.pos as int,
                ) && extractor.wf() && extractor.source.data@ == data@ && extractor.state()
                    == start_of_run(extractor.source.pos as int),
                Err(e) => header_outcome(data@) == Err::<int, BamErrorKind>(e.kind) && e.offset
                    == Some(scan_outcome(data@, 0).end as usize),
            },
    {
        let mut source = ByteSource::new(data);
        proof {
            lemma_first_header_is_least(source.data@, 0);
        }
        let payload = match scan_next_block(&mut source) {
            Ok(payload) => payload,
            Err(e) => {
                return Err(e);
            },
        };
        if payload.len() < 4 || payload[0] != 66 || payload[1] != 65 || payload[2] != 77
            || payload[3] != 1 {
            return Err(BamHandleError::at(BamErrorKind::IncorrectMagicNumber, source.position()));
        }
        Ok(
            Extractor {
                source,
                buffer: Vec::new(),
                written: Vec::new(),
                scanmode: false,
                counters: Counters { n_sequences: 0, n_blocks: 0, n_corrupted: 0 },
                done: false,
            },
        )
    }

    /// Takes in what looking for a block returned: a payload joins the
    /// buffer, or takes its place where `replace` is set; the end of the
    /// input ends the run; any other failure is counted and has the next
    /// block searched for.
    fn take_block(
        &mut self,
        returned: Result<Vec<u8>, BamHandleError>,
        replace: bool,
        Ghost(before): Ghost<Run>,
        Ghost(outcome): Ghost<BlockOutcome>,
    )
        requires
            old(self).source.wf(),
            agrees(returned, old(self).source.pos as int, outcome),
            before.pos <= outcome.end,
            outcome.result !is Err || outcome.result == Err::<Seq<u8>, BamErrorKind>(
                BamErrorKind::BufferTerminated,
            ) || before.pos < outcome.end,
            outcome.result is Ok ==> before.pos < outcome.end,
            before == (Run { pos: before.pos, ..old(self).state() }),
            before.n_blocks <= before.pos,
            before.n_sequences <= before.output.len(),
            before.n_corrupted + if before.scanmode {
                0int
            } else {
                1int
            } <= before.pos,
            !before.done,
        ensures
            final(self).wf(),
            final(self).source == old(self).source,
            final(self).state() == after_block(
                before,
                if replace {
                    Seq::empty()
                } else {
                    before.buffer
                },
                outcome,
            ),
    {
        match returned {
            Ok(mut payload) => {
                if replace {
                    self.buffer = payload;
                    assert(self.buffer@ =~= Seq::<u8>::empty() + self.buffer@);
                } else {
                    self.buffer.append(&mut payload);
                }
                self.scanmode = false;
                self.counters.n_blocks = self.counters.n_blocks + 1;
            },
            Err(e) => {
                match e.kind {
                    BamErrorKind::BufferTerminated => {
                        self.done = true;
                    },
                    _ => {
                        self.give_up();
                    },
                }
            },
        }
    }

    /// Counts one thing given up, drops what is buffered, and has the next
    /// block searched for.
    fn give_up(&mut self)
        requires
            old(self).counters.n_corrupted < u64::MAX,
        ensures
            *final(self) == (Extractor {
                buffer: final(self).buffer,
                scanmode: true,
                counters: Counters {
                    n_corrupted: (old(self).counters.n_corrupted + 1) as u64,
                    ..old(self).counters
                },
                ..*old(self)
            }),
            final(self).buffer@ == Seq::<u8>::empty(),
    {
        self.buffer = Vec::new();
        self.scanmode = true;
        self.counters.n_corrupted = self.counters.n_corrupted + 1;
    }

    /// Makes one step of the run.
    pub fn step(&mut self, options: &Options)
        requires
            old(self).wf(),
            !old(self).done,
        ensures
            final(self).wf(),
            final(self).source.data@ == old(self).source.data@,
            final(self).state() == step(old(self).source.data@, *options, old(self).state()),
    {
        let ghost data = self.source.data@;
        let ghost before = self.state();
        proof {
            lemma_first_header_is_least(data, before.pos);
        }
        if self.scanmode {
            let returned = scan_next_block(&mut self.source);
            self.take_block(returned, true, Ghost(before), Ghost(scan_outcome(data, before.pos)));
        } else if self.buffer.len() >= 36 {
            let layout = parse_layout(&self.buffer, options.noqual);
            if !layout.is_valid() {
                self.give_up();
            } else if (self.buffer.len() as u64) < layout.drain_pos {
                let returned = read_next_block(&mut self.source);
                self.take_block(
                    returned,
                    false,
                    Ghost(before),
                    Ghost(read_outcome(data, before.pos)),
                );
            } else if emit_record(&self.buffer, &layout, options.noqual, &mut self.written) {
                // Each record has left text, so the records are fewer than its bytes.
                let written_len: usize = self.written.len();
                assert(self.counters.n_sequences < written_len);
                let rest = self.buffer.split_off(layout.drain_pos as usize);
                self.buffer = rest;
                self.counters.n_sequences = self.counters.n_sequences + 1;
                self.done = options.limit > 0 && self.counters.n_sequences >= options.limit;
            } else {
                self.give_up();
            }
        } else {
            let returned = read_next_block(&mut self.source);
            self.take_block(
                    returned,
                    false,
                    Ghost(before),
                    Ghost(read_outcome(data, before.pos)),
                );
        }
        proof {
            let after = step(data, *options, before);
            assert(self.state().buffer =~= after.buffer);
            assert(self.state().output =~= after.output);
        }
    }
}

/// Whether a run on `data` that finds `before` in the sink returns
/// `returned` and leaves `after` in the sink. Without a header block that
/// opens with `BAM\1` the run fails with the kind of `header_outcome`, at the
/// place where the search for the block ended, and writes nothing. Else it
/// returns what `run` has counted and adds to the sink what `run` has
/// written.
pub open spec fn retrieved(
    data: Seq<u8>,
    options: Options,
    before: Seq<u8>,
    returned: Result<Counters, BamHandleError>,
    after: Seq<u8>,
) -> bool {
    match header_outcome(data) {
        Err(kind) => returned == Err::<Counters, BamHandleError>(
            BamHandleError { kind, offset: Some(scan_outcome(data, 0).end as usize) },
        ) && after == before,
        Ok(start) => {
            let end = run(data, options, start_of_run(start));
            &&& returned matches Ok(counters)
            &&& counters.n_sequences == end.n_sequences
            &&& counters.n_blocks == end.n_blocks
            &&& counters.n_corrupted == end.n_corrupted
            &&& after == before + end.output
        },
    }
}

/// Reads the alignment file held in `data` and writes each record that can
/// be recovered to `output`, as FASTA or FASTQ. The first block must open
/// with `BAM\1`; after it the run goes step by step until the input ends or
/// the limit of records is reached.
pub fn retrieve_fastq(data: Vec<u8>, output: &mut Vec<u8>, options: &Options) -> (returned:
    Result<Counters, BamHandleError>)
    ensures
        retrieved(data@, *options, old(output)@, returned, final(output)@),
{
    let mut extractor = match Extractor::open(data) {
        Ok(extractor) => extractor,
        Err(e) => {
            return Err(e);
        },
    };
    let ghost start = extractor.state();
    while !extractor.done
        invariant
            extractor.wf(),
            extractor.source.data@ == data@,
            in_range(data@, start),
            run(data@, *options, extractor.state()) == run(data@, *options, start),
        decreases
                data@.len() - extractor.source.pos,
                extractor.buffer@.len(),
                if extractor.done {
                    0nat
                } else {
                    1nat
                },
    {
        proof {
            lemma_step_advances(data@, *options, extractor.state());
        }
        extractor.step(options);
    }
    output.append(&mut extractor.written);
    Ok(extractor.counters)
}

} // verus!
