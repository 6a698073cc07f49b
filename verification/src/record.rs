use crate::codec::{
    convert_qual, convert_sequence, decode_qual, decode_sequence, packed_len, quals_printable,
};
use crate::le::{le_u16_at, le_u32_at, u16_at, u32_at};
use vstd::prelude::*;

verus! {

/// The length, in bytes, of the fixed part that opens every alignment
/// record, its size field included.
pub const PREFIX_LEN: usize = 36;

/// The size that the record at the head of `buffer` declares for what
/// follows its size field.
pub open spec fn block_size(buffer: Seq<u8>) -> int {
    le_u32_at(buffer, 0)
}

/// How many bytes the record at the head of `buffer` takes, its size field
/// included.
pub open spec fn drain_pos(buffer: Seq<u8>) -> int {
    4 + block_size(buffer)
}

/// The length of the read name, its closing NUL included.
pub open spec fn l_read_name(buffer: Seq<u8>) -> int {
    buffer[12] as int
}

/// The number of CIGAR operations, each of four bytes.
pub open spec fn n_cigar_op(buffer: Seq<u8>) -> int {
    le_u16_at(buffer, 16)
}

/// The number of bases of the read.
pub open spec fn l_seq(buffer: Seq<u8>) -> int {
    le_u32_at(buffer, 20)
}

/// Where the packed bases start.
pub open spec fn seq_ptr(buffer: Seq<u8>) -> int {
    36 + l_read_name(buffer) + 4 * n_cigar_op(buffer)
}

/// Where the quality values start.
pub open spec fn qual_ptr(buffer: Seq<u8>) -> int {
    seq_ptr(buffer) + packed_len(l_seq(buffer))
}

/// The least number of bytes that hold all that is written out of the
/// record: up to the bases, and up to the qualities where they are wanted.
pub open spec fn min_size(buffer: Seq<u8>, noqual: bool) -> int {
    qual_ptr(buffer) + if noqual {
        0
    } else {
        l_seq(buffer)
    }
}

/// Whether the fixed part at the head of `buffer` can be that of a record.
pub open spec fn record_valid(buffer: Seq<u8>, noqual: bool) -> bool {
    &&& drain_pos(buffer) > 36
    &&& drain_pos(buffer) >= min_size(buffer, noqual)
    &&& l_read_name(buffer) >= 3
}

/// The read name without its closing NUL.
pub open spec fn record_name(buffer: Seq<u8>) -> Seq<u8> {
    buffer.subrange(36, 36 + l_read_name(buffer) - 1)
}

/// The bases of the read, as letters.
pub open spec fn record_bases(buffer: Seq<u8>) -> Seq<u8> {
    decode_sequence(buffer.subrange(seq_ptr(buffer), qual_ptr(buffer)), l_seq(buffer))
}

/// The quality values of the read, as stored.
pub open spec fn record_quals(buffer: Seq<u8>) -> Seq<u8> {
    buffer.subrange(qual_ptr(buffer), qual_ptr(buffer) + l_seq(buffer))
}

/// A FASTA entry: `>`, the name, a line feed, the bases, a line feed.
pub open spec fn fasta_entry(name: Seq<u8>, bases: Seq<u8>) -> Seq<u8> {
    seq![62u8] + name + seq![10u8] + bases + seq![10u8]
}

/// A FASTQ entry: `@`, the name, the bases, `+` and the quality text, each
/// on a line of its own.
pub open spec fn fastq_entry(name: Seq<u8>, bases: Seq<u8>, qual_text: Seq<u8>) -> Seq<u8> {
    seq![64u8] + name + seq![10u8] + bases + seq![10u8, 43u8, 10u8] + qual_text + seq![10u8]
}

/// The text that is written for the record at the head of `buffer`, or
/// `None` where one of its quality values has no printable form.
pub open spec fn render(buffer: Seq<u8>, noqual: bool) -> Option<Seq<u8>> {
    if noqual {
        Some(fasta_entry(record_name(buffer), record_bases(buffer)))
    } else if quals_printable(record_quals(buffer)) {
        Some(
            fastq_entry(
                record_name(buffer),
                record_bases(buffer),
                decode_qual(record_quals(buffer)),
            ),
        )
    } else {
        None
    }
}

/// The places and sizes that the fixed part of a record gives.
#[derive(Clone, Copy, Debug, PartialEq, Eq, Structural)]
pub struct RecordLayout {
    pub drain_pos: u64,
    pub l_read_name: u64,
    pub l_seq: u64,
    pub seq_ptr: u64,
    pub min_size: u64,
}

impl RecordLayout {
    /// Whether this is what the head of `buffer` gives.
    pub open spec fn describes(&self, buffer: Seq<u8>, noqual: bool) -> bool {
        &&& self.drain_pos == drain_pos(buffer)
        &&& self.l_read_name == l_read_name(buffer)
        &&& self.l_seq == l_seq(buffer)
        &&& self.seq_ptr == seq_ptr(buffer)
        &&& self.min_size == min_size(buffer, noqual)
    }

    /// Whether the fixed part can be that of a record: it declares more
    /// than its own size, room for all that is written out, and a name.
    pub fn is_valid(&self) -> (valid: bool)
        ensures
            valid == (self.drain_pos > 36 && self.drain_pos >= self.min_size && self.l_read_name
                >= 3),
    {
        self.drain_pos > 36 && self.drain_pos >= self.min_size && self.l_read_name >= 3
    }
}

/// Reads the places and sizes of the record whose fixed part opens
/// `buffer`.
pub fn parse_layout(buffer: &Vec<u8>, noqual: bool) -> (layout: RecordLayout)
    requires
        buffer@.len() >= 36,
    ensures
        layout.describes(buffer@, noqual),
{
    let block_size: u64 = u32_at(buffer, 0) as u64;
    let l_read_name: u64 = buffer[12] as u64;
    let n_cigar_op: u64 = u16_at(buffer, 16) as u64;
    let l_seq: u64 = u32_at(buffer, 20) as u64;
    let seq_ptr: u64 = 36 + l_read_name + 4 * n_cigar_op;
    let packed: u64 = l_seq / 2 + l_seq % 2;
    let min_size: u64 = seq_ptr + packed + if noqual {
        0
    } else {
        l_seq
    };
    RecordLayout { drain_pos: 4 + block_size, l_read_name, l_seq, seq_ptr, min_size }
}

fn append_range(output: &mut Vec<u8>, buffer: &Vec<u8>, from: usize, to: usize)
    requires
        from <= to <= buffer@.len(),
    ensures
        final(output)@ == old(output)@ + buffer@.subrange(from as int, to as int),
{
    let mut i: usize = from;
    while i < to
        invariant
            from <= i <= to <= buffer@.len(),
            output@ == old(output)@ + buffer@.subrange(from as int, i as int),
        decreases to - i,
    {
        output.push(buffer[i]);
        i = i + 1;
        assert(output@ =~= old(output)@ + buffer@.subrange(from as int, i as int));
    }
}

/// Writes the record at the head of `buffer` to `output`: as a FASTA entry
/// where `noqual` is set, else as a FASTQ entry. Nothing is written, and
/// `false` is returned, where a quality value has no printable form.
pub fn emit_record(buffer: &Vec<u8>, layout: &RecordLayout, noqual: bool, output: &mut Vec<u8>)
    -> (written: bool)
    requires
        buffer@.len() >= 36,
        layout.describes(buffer@, noqual),
        record_valid(buffer@, noqual),
        buffer@.len() >= min_size(buffer@, noqual),
    ensures
        match render(buffer@, noqual) {
            Some(text) => written && final(output)@ == old(output)@ + text,
            None => !written && final(output)@ == old(output)@,
        },
{
    let name_end: usize = (36 + layout.l_read_name - 1) as usize;
    let seq_ptr: usize = layout.seq_ptr as usize;
    let l_seq: usize = layout.l_seq as usize;
    let qual_ptr: usize = seq_ptr + (l_seq / 2 + l_seq % 2);
    let mut bases = convert_sequence(buffer, seq_ptr, l_seq);
    if noqual {
        output.push(62);
        append_range(output, buffer, 36, name_end);
        output.push(10);
        output.append(&mut bases);
        output.push(10);
        assert(output@ =~= old(output)@ + fasta_entry(record_name(buffer@), record_bases(buffer@)));
        true
    } else {
        match convert_qual(buffer, qual_ptr, l_seq) {
            None => false,
            Some(mut qual_text) => {
                output.push(64);
                append_range(output, buffer, 36, name_end);
                output.push(10);
                output.append(&mut bases);
                output.push(10);
                output.push(43);
                output.push(10);
                output.append(&mut qual_text);
                output.push(10);
                assert(output@ =~= old(output)@ + fastq_entry(
                    record_name(buffer@),
                    record_bases(buffer@),
                    decode_qual(record_quals(buffer@)),
                ));
                true
            },
        }
    }
}

/// Every entry that is written holds as many base letters as the record
/// declares bases, and in a FASTQ entry as many quality characters.
pub proof fn lemma_rendered_lengths(buffer: Seq<u8>)
    requires
        buffer.len() >= 36,
        qual_ptr(buffer) + l_seq(buffer) <= buffer.len(),
    ensures
        record_bases(buffer).len() == l_seq(buffer),
        decode_qual(record_quals(buffer)).len() == l_seq(buffer),
{
}

} // verus!
