use crate::codec::{
    decode_qual, encode_sequence, is_base_letter, lemma_sequence_round_trip, quals_printable,
};
use crate::extract::{has_bam_magic, header_outcome, run, start_of_run, Options};
use crate::extract::Run;
use crate::files::{
    after_part, drained, end_of_file, frame_count, is_file, laid_out, lemma_run_over_file,
    no_gaps, over_parts, start_of_file, taken_in, whole_frames, Drained, Part,
};
use crate::record::{
    drain_pos, fasta_entry, fastq_entry, l_read_name, l_seq, qual_ptr, record_bases,
    record_name, record_quals, record_valid, render, seq_ptr,
};
use vstd::prelude::*;

verus! {

/// A read as it is known before it is encoded: its name, its bases as
/// letters, and a quality value for each base.
pub struct Read {
    pub name: Seq<u8>,
    pub bases: Seq<u8>,
    pub quals: Seq<u8>,
}

/// Whether `read` can be encoded and written: its name has two characters
/// or more, its bases are base letters, each has a quality value, and each
/// quality value has a printable form.
pub open spec fn is_read(read: Read) -> bool {
    &&& read.name.len() >= 2
    &&& read.quals.len() == read.bases.len()
    &&& forall|i: int| 0 <= i < read.bases.len() ==> is_base_letter(#[trigger] read.bases[i])
    &&& quals_printable(read.quals)
}

/// The entry that is written for `read`.
pub open spec fn entry_of(read: Read, noqual: bool) -> Seq<u8> {
    if noqual {
        fasta_entry(read.name, read.bases)
    } else {
        fastq_entry(read.name, read.bases, decode_qual(read.quals))
    }
}

/// Whether the record at the head of `buffer` encodes `read`: it is all
/// there, declares the lengths of the name with its closing NUL and of the
/// bases, and holds the name, the packed bases and the quality values at
/// their places. Its other fields are free.
pub open spec fn holds_read(buffer: Seq<u8>, read: Read) -> bool {
    &&& is_read(read)
    &&& buffer.len() >= 36
    &&& 36 < drain_pos(buffer) <= buffer.len()
    &&& l_read_name(buffer) == read.name.len() + 1
    &&& l_seq(buffer) == read.bases.len()
    &&& qual_ptr(buffer) + l_seq(buffer) <= drain_pos(buffer)
    &&& record_name(buffer) == read.name
    &&& buffer.subrange(seq_ptr(buffer), qual_ptr(buffer)) == encode_sequence(read.bases)
    &&& record_quals(buffer) == read.quals
}

/// Whether `buffer` is made of the records that encode `reads`, in order,
/// and nothing else.
pub open spec fn encodes(buffer: Seq<u8>, reads: Seq<Read>) -> bool
    decreases reads.len(),
{
    if reads.len() == 0 {
        buffer.len() == 0
    } else {
        holds_read(buffer, reads[0]) && encodes(
            buffer.skip(drain_pos(buffer)),
            reads.drop_first(),
        )
    }
}

/// The entries that are written for `reads`, in order.
pub open spec fn entries(reads: Seq<Read>, noqual: bool) -> Seq<u8>
    decreases reads.len(),
{
    if reads.len() == 0 {
        Seq::empty()
    } else {
        entry_of(reads[0], noqual) + entries(reads.drop_first(), noqual)
    }
}

/// A record that encodes a read is valid, and what is written for it is the
/// entry of that read: the name, the bases and the qualities as they were
/// before the read was encoded.
pub proof fn lemma_read_is_rendered(buffer: Seq<u8>, read: Read, noqual: bool)
    requires
        holds_read(buffer, read),
    ensures
        record_valid(buffer, noqual),
        record_bases(buffer) == read.bases,
        render(buffer, noqual) == Some(entry_of(read, noqual)),
{
    lemma_sequence_round_trip(read.bases);
}

/// A payload that encodes reads is made of whole records, as many as there
/// are reads; without a limit all of them are written, and none is given
/// up.
pub proof fn lemma_reads_are_drained(
    buffer: Seq<u8>,
    reads: Seq<Read>,
    options: Options,
    written: int,
)
    requires
        encodes(buffer, reads),
    ensures
        whole_frames(buffer),
        frame_count(buffer) == reads.len(),
        options.limit == 0 ==> drained(buffer, options, written) == (Drained {
            text: entries(reads, options.noqual),
            count: reads.len() as int,
            gave_up: false,
            full: false,
            left: Seq::empty(),
        }),
    decreases reads.len(),
{
    if reads.len() > 0 {
        lemma_read_is_rendered(buffer, reads[0], options.noqual);
        lemma_reads_are_drained(
            buffer.skip(drain_pos(buffer)),
            reads.drop_first(),
            options,
            written + 1,
        );
    } else {
        assert(buffer =~= Seq::<u8>::empty());
    }
}

/// Whether the payloads of `parts` encode `batches`, one batch of reads to
/// the block.
pub open spec fn encode_all(parts: Seq<Part>, batches: Seq<Seq<Read>>) -> bool {
    &&& parts.len() == batches.len()
    &&& forall|i: int| 0 <= i < parts.len() ==> encodes((#[trigger] parts[i]).payload, batches[i])
}

/// The entries that are written for all the reads of `batches`, in order.
pub open spec fn all_entries(batches: Seq<Seq<Read>>, noqual: bool) -> Seq<u8>
    decreases batches.len(),
{
    if batches.len() == 0 {
        Seq::empty()
    } else {
        entries(batches[0], noqual) + all_entries(batches.drop_first(), noqual)
    }
}

/// The number of reads in `batches`.
pub open spec fn read_total(batches: Seq<Seq<Read>>) -> int
    decreases batches.len(),
{
    if batches.len() == 0 {
        0
    } else {
        batches[0].len() + read_total(batches.drop_first())
    }
}

/// Over blocks that encode reads, a run without a limit writes the entries
/// of all the reads, in order, and gives none of them up; without gaps it
/// gives nothing up at all.
pub proof fn lemma_yield_of_reads(
    data: Seq<u8>,
    options: Options,
    s: Run,
    parts: Seq<Part>,
    batches: Seq<Seq<Read>>,
)
    requires
        encode_all(parts, batches),
        options.limit == 0,
        !s.done,
    ensures
        ({
            let end = over_parts(data, options, s, parts);
            &&& end.output == s.output + all_entries(batches, options.noqual)
            &&& end.n_sequences == s.n_sequences + read_total(batches)
            &&& end.n_blocks == s.n_blocks + parts.len()
            &&& no_gaps(parts) && !s.scanmode ==> end.n_corrupted == s.n_corrupted
        }),
    decreases parts.len(),
{
    if parts.len() == 0 {
        assert(s.output + all_entries(batches, options.noqual) =~= s.output);
    } else {
        let taken = taken_in(data, s, parts[0]);
        assert(encodes(parts[0].payload, batches[0]));
        lemma_reads_are_drained(parts[0].payload, batches[0], options, taken.n_sequences);
        let next = after_part(data, options, s, parts[0]);
        let rest = parts.drop_first();
        let rest_batches = batches.drop_first();
        assert forall|i: int| 0 <= i < rest.len() implies encodes(
            (#[trigger] rest[i]).payload,
            rest_batches[i],
        ) by {
            assert(rest[i] == parts[i + 1]);
            assert(rest_batches[i] == batches[i + 1]);
            assert(encodes(parts[i + 1].payload, batches[i + 1]));
        }
        lemma_yield_of_reads(data, options, next, rest, rest_batches);
        if no_gaps(parts) {
            assert(parts[0].gap == 0);
            assert forall|i: int| 0 <= i < rest.len() implies (#[trigger] rest[i]).gap == 0 by {
                assert(rest[i] == parts[i + 1]);
            }
        }
        assert(s.output + all_entries(batches, options.noqual) =~= next.output + all_entries(
            rest_batches,
            options.noqual,
        ));
    }
}

/// A file whose blocks behind the header encode reads is a file of whole
/// records.
pub proof fn lemma_reads_make_a_file(data: Seq<u8>, parts: Seq<Part>, batches: Seq<Seq<Read>>)
    requires
        parts.len() >= 1,
        laid_out(data, 0, parts),
        has_bam_magic(parts[0].payload),
        encode_all(parts.drop_first(), batches),
    ensures
        is_file(data, parts),
{
    let rest = parts.drop_first();
    let options = Options { limit: 0, noqual: false };
    assert forall|i: int| 0 <= i < rest.len() implies whole_frames(
        #[trigger] rest[i].payload,
    ) by {
        assert(encodes(rest[i].payload, batches[i]));
        lemma_reads_are_drained(rest[i].payload, batches[i], options, 0);
    }
}

/// Round trip over a whole file. In a file that is made of a header block
/// and of intact blocks that encode reads, a run without a limit writes the
/// entry of every read, in the order of the file, and nothing else; it
/// counts every read and every block behind the header. Where the blocks
/// stand one behind the other, it gives nothing up.
pub proof fn lemma_reads_come_back(
    data: Seq<u8>,
    options: Options,
    parts: Seq<Part>,
    batches: Seq<Seq<Read>>,
)
    requires
        parts.len() >= 1,
        laid_out(data, 0, parts),
        has_bam_magic(parts[0].payload),
        encode_all(parts.drop_first(), batches),
        options.limit == 0,
    ensures
        header_outcome(data) matches Ok(start) && ({
            let end = run(data, options, start_of_run(start));
            &&& end.output == all_entries(batches, options.noqual)
            &&& end.n_sequences == read_total(batches)
            &&& end.n_blocks == parts.len() - 1
            &&& no_gaps(parts) ==> end.n_corrupted == 0
            &&& end.done
        }),
{
    let rest = parts.drop_first();
    lemma_reads_make_a_file(data, parts, batches);
    lemma_run_over_file(data, options, parts);
    let s = start_of_file(data, parts);
    lemma_yield_of_reads(data, options, s, rest, batches);
    assert(Seq::<u8>::empty() + all_entries(batches, options.noqual) =~= all_entries(
        batches,
        options.noqual,
    ));
    if no_gaps(parts) {
        assert forall|i: int| 0 <= i < rest.len() implies (#[trigger] rest[i]).gap == 0 by {
            assert(rest[i] == parts[i + 1]);
        }
    }
    assert(end_of_file(data, options, parts).output == all_entries(batches, options.noqual));
}

} // verus!
