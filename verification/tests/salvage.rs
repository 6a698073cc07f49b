use bamsalvage::bgzf::{read_next_block, scan_next_block, shift_distance, window_is_plausible};
use bamsalvage::checksum::check_trailer;
use bamsalvage::error::{BamErrorKind, BamHandleError};
use bamsalvage::extract::{retrieve_fastq, Counters, Extractor, Options};
use bamsalvage::inflate::{
    after_attempt, decompress_without_header, Attempt, InflateError, NextAttempt,
};
use bamsalvage::le::{u16_at, u32_at};
use bamsalvage::record::{emit_record, parse_layout};
use bamsalvage::source::ByteSource;

fn deflate_raw(data: &[u8]) -> Vec<u8> {
    let mut packer = flate2::Compress::new(flate2::Compression::default(), false);
    let mut out = Vec::with_capacity(data.len() + data.len() / 8 + 128);
    let status = packer
        .compress_vec(data, &mut out, flate2::FlushCompress::Finish)
        .unwrap();
    assert_eq!(status, flate2::Status::StreamEnd);
    out
}

fn bgzf_member(payload: &[u8]) -> Vec<u8> {
    let cdata = deflate_raw(payload);
    let bsize = (cdata.len() + 25) as u16;
    let mut out = vec![31u8, 139, 8, 4, 0, 0, 0, 0, 0, 255, 6, 0, 66, 67, 2, 0];
    out.extend_from_slice(&bsize.to_le_bytes());
    out.extend_from_slice(&cdata);
    out.extend_from_slice(&crc32fast::hash(payload).to_le_bytes());
    out.extend_from_slice(&(payload.len() as u32).to_le_bytes());
    out
}

fn bam_header() -> Vec<u8> {
    let mut out = b"BAM\x01".to_vec();
    out.extend_from_slice(&0u32.to_le_bytes());
    out.extend_from_slice(&0u32.to_le_bytes());
    out
}

fn code_of(base: u8) -> u8 {
    b"=ACMGRSVTWYHKDBN".iter().position(|b| *b == base).unwrap() as u8
}

fn bam_record(name: &str, bases: &[u8], quals: &[u8]) -> Vec<u8> {
    assert_eq!(bases.len(), quals.len());
    let l_read_name = name.len() + 1;
    let packed_len = (bases.len() + 1) / 2;
    let block_size = 32 + l_read_name + packed_len + bases.len();
    let mut out = Vec::new();
    out.extend_from_slice(&(block_size as u32).to_le_bytes());
    out.extend_from_slice(&(-1i32).to_le_bytes());
    out.extend_from_slice(&(-1i32).to_le_bytes());
    out.push(l_read_name as u8);
    out.push(0);
    out.extend_from_slice(&4680u16.to_le_bytes());
    out.extend_from_slice(&0u16.to_le_bytes());
    out.extend_from_slice(&4u16.to_le_bytes());
    out.extend_from_slice(&(bases.len() as u32).to_le_bytes());
    out.extend_from_slice(&(-1i32).to_le_bytes());
    out.extend_from_slice(&(-1i32).to_le_bytes());
    out.extend_from_slice(&0i32.to_le_bytes());
    out.extend_from_slice(name.as_bytes());
    out.push(0);
    let mut packed = vec![0u8; packed_len];
    for (i, base) in bases.iter().enumerate() {
        let code = code_of(*base);
        if i % 2 == 0 {
            packed[i / 2] |= code << 4;
        } else {
            packed[i / 2] |= code;
        }
    }
    out.extend_from_slice(&packed);
    out.extend_from_slice(quals);
    out
}

fn sample_read(i: usize) -> (String, Vec<u8>, Vec<u8>) {
    let letters = b"ACGTN";
    let len = 30 + (i * 7) % 23;
    let mut bases = Vec::new();
    let mut quals = Vec::new();
    let mut x = (i as u32).wrapping_mul(2654435761).wrapping_add(12345);
    for _ in 0..len {
        x = x.wrapping_mul(1664525).wrapping_add(1013904223);
        bases.push(letters[((x >> 24) % 5) as usize]);
        quals.push(((x >> 16) % 42) as u8);
    }
    (format!("read{}", i), bases, quals)
}

fn fastq_of(name: &str, bases: &[u8], quals: &[u8]) -> Vec<u8> {
    let mut out = vec![b'@'];
    out.extend_from_slice(name.as_bytes());
    out.push(b'\n');
    out.extend_from_slice(bases);
    out.extend_from_slice(b"\n+\n");
    out.extend(quals.iter().map(|q| q + 33));
    out.push(b'\n');
    out
}

fn file_of_blocks(n_blocks: usize, reads_per_block: usize) -> (Vec<u8>, Vec<Vec<u8>>) {
    let mut file = bgzf_member(&bam_header());
    let mut expected = Vec::new();
    for b in 0..n_blocks {
        let mut payload = Vec::new();
        for r in 0..reads_per_block {
            let (name, bases, quals) = sample_read(b * reads_per_block + r);
            payload.extend_from_slice(&bam_record(&name, &bases, &quals));
            expected.push(fastq_of(&name, &bases, &quals));
        }
        file.extend_from_slice(&bgzf_member(&payload));
    }
    file.extend_from_slice(&bgzf_member(&[]));
    (file, expected)
}

fn run(data: &[u8], limit: u64, noqual: bool) -> (Result<Counters, BamHandleError>, Vec<u8>) {
    let mut output = Vec::new();
    let result = retrieve_fastq(data.to_vec(), &mut output, &Options { limit, noqual });
    (result, output)
}

fn kind_of(result: Result<Vec<u8>, BamHandleError>) -> BamErrorKind {
    result.unwrap_err().kind
}

#[test]
fn empty_valid_bam_gives_no_output() {
    let mut file = bgzf_member(&bam_header());
    file.extend_from_slice(&bgzf_member(&[]));
    let (result, output) = run(&file, 0, false);
    let counters = result.unwrap();
    assert_eq!(counters.n_sequences, 0);
    assert!(counters.n_blocks >= 1);
    assert_eq!(counters.n_corrupted, 0);
    assert!(output.is_empty());
}

#[test]
fn single_read_is_written_as_fastq() {
    let mut file = bgzf_member(&bam_header());
    file.extend_from_slice(&bgzf_member(&bam_record("r1", b"ACGT", &[30, 30, 30, 30])));
    file.extend_from_slice(&bgzf_member(&[]));
    let (result, output) = run(&file, 0, false);
    assert_eq!(output, b"@r1\nACGT\n+\n????\n".to_vec());
    let counters = result.unwrap();
    assert_eq!(counters.n_sequences, 1);
    assert_eq!(counters.n_blocks, 2);
    assert_eq!(counters.n_corrupted, 0);
}

#[test]
fn single_read_is_written_as_fasta() {
    let mut file = bgzf_member(&bam_header());
    file.extend_from_slice(&bgzf_member(&bam_record("r1", b"ACGTN", &[30, 30, 30, 30, 30])));
    let (result, output) = run(&file, 0, true);
    assert_eq!(output, b">r1\nACGTN\n".to_vec());
    assert_eq!(result.unwrap().n_sequences, 1);
}

#[test]
fn output_is_appended_to_what_the_sink_holds() {
    let mut file = bgzf_member(&bam_header());
    file.extend_from_slice(&bgzf_member(&bam_record("r1", b"AC", &[0, 1])));
    let mut output = b"kept\n".to_vec();
    let options = Options { limit: 0, noqual: false };
    retrieve_fastq(file, &mut output, &options).unwrap();
    assert_eq!(output, b"kept\n@r1\nAC\n+\n!\"\n".to_vec());
}

#[test]
fn unprintable_quality_rejects_the_record() {
    let mut file = bgzf_member(&bam_header());
    file.extend_from_slice(&bgzf_member(&bam_record("bad", b"ACGT", &[30, 135, 30, 30])));
    file.extend_from_slice(&bgzf_member(&bam_record("good", b"TTGA", &[1, 2, 3, 4])));
    file.extend_from_slice(&bgzf_member(&[]));
    let (result, output) = run(&file, 0, false);
    assert_eq!(output, fastq_of("good", b"TTGA", &[1, 2, 3, 4]));
    let counters = result.unwrap();
    assert_eq!(counters.n_sequences, 1);
    assert_eq!(counters.n_corrupted, 1);
}

#[test]
fn unprintable_quality_is_ignored_without_qualities() {
    let mut file = bgzf_member(&bam_header());
    file.extend_from_slice(&bgzf_member(&bam_record("bad", b"ACGT", &[30, 135, 30, 30])));
    let (result, output) = run(&file, 0, true);
    assert_eq!(output, b">bad\nACGT\n".to_vec());
    assert_eq!(result.unwrap().n_corrupted, 0);
}

#[test]
fn uncorrupted_file_gives_every_read_in_order() {
    let (file, expected) = file_of_blocks(10, 6);
    let (result, output) = run(&file, 0, false);
    assert_eq!(output, expected.concat());
    let counters = result.unwrap();
    assert_eq!(counters.n_sequences, 60);
    assert_eq!(counters.n_blocks, 11);
    assert_eq!(counters.n_corrupted, 0);
}

#[test]
fn zeroed_stretch_loses_reads_and_is_counted() {
    let (mut file, expected) = file_of_blocks(10, 6);
    let middle = file.len() / 2;
    for byte in file[middle..middle + 200].iter_mut() {
        *byte = 0;
    }
    let (result, output) = run(&file, 0, false);
    let counters = result.unwrap();
    assert!((counters.n_sequences as usize) < expected.len());
    assert!(counters.n_sequences > 0);
    assert!(counters.n_corrupted >= 1);
    let text = String::from_utf8(output).unwrap();
    let lines: Vec<&str> = text.lines().collect();
    assert_eq!(lines.len() as u64, 4 * counters.n_sequences);
    for entry in lines.chunks(4) {
        assert!(entry[0].starts_with('@'));
        assert_eq!(entry[2], "+");
        assert_eq!(entry[1].len(), entry[3].len());
        let mut whole = entry.join("\n").into_bytes();
        whole.push(b'\n');
        assert!(expected.contains(&whole));
    }
}

#[test]
fn limit_with_fasta_gives_exactly_three_entries() {
    let (file, _) = file_of_blocks(3, 4);
    let (result, output) = run(&file, 3, true);
    assert_eq!(result.unwrap().n_sequences, 3);
    let text = String::from_utf8(output).unwrap();
    let lines: Vec<&str> = text.lines().collect();
    assert_eq!(lines.len(), 6);
    for entry in lines.chunks(2) {
        assert!(entry[0].starts_with('>'));
        assert!(!entry[1].is_empty());
    }
}

#[test]
fn limit_gives_the_smaller_of_limit_and_reads() {
    let (file, expected) = file_of_blocks(2, 5);
    let (unlimited, all) = run(&file, 0, false);
    assert_eq!(unlimited.unwrap().n_sequences, 10);
    for limit in [1u64, 4, 5, 6, 10, 11, 1000] {
        let (result, output) = run(&file, limit, false);
        let wanted = std::cmp::min(limit, 10) as usize;
        assert_eq!(result.unwrap().n_sequences as usize, wanted);
        assert_eq!(output, expected[..wanted].concat());
        assert!(all.starts_with(&output));
    }
}

#[test]
fn two_runs_give_the_same_bytes() {
    let (file, _) = file_of_blocks(4, 3);
    let (first, first_output) = run(&file, 0, false);
    let (second, second_output) = run(&file, 0, false);
    assert_eq!(first, second);
    assert_eq!(first_output, second_output);
    let (third, third_output) = run(&file, 0, true);
    let (fourth, fourth_output) = run(&file, 0, true);
    assert_eq!(third, fourth);
    assert_eq!(third_output, fourth_output);
}

#[test]
fn encoded_reads_come_back_unchanged() {
    let reads = [
        ("all", b"=ACMGRSVTWYHKDBN".to_vec(), (0u8..16).collect::<Vec<u8>>()),
        ("one", b"N".to_vec(), vec![134u8]),
        ("odd", b"GATTACA".to_vec(), vec![40u8, 0, 93, 2, 41, 7, 33]),
    ];
    let mut payload = Vec::new();
    let mut expected = Vec::new();
    for (name, bases, quals) in reads.iter() {
        payload.extend_from_slice(&bam_record(name, bases, quals));
        expected.extend_from_slice(&fastq_of(name, bases, quals));
    }
    let mut file = bgzf_member(&bam_header());
    file.extend_from_slice(&bgzf_member(&payload));
    let (result, output) = run(&file, 0, false);
    assert_eq!(output, expected);
    assert_eq!(result.unwrap().n_sequences, 3);
}

#[test]
fn junk_between_members_loses_no_read() {
    let (name_a, bases_a, quals_a) = sample_read(1);
    let (name_b, bases_b, quals_b) = sample_read(2);
    let member_a = bgzf_member(&bam_record(&name_a, &bases_a, &quals_a));
    let member_b = bgzf_member(&bam_record(&name_b, &bases_b, &quals_b));
    let mut clean = bgzf_member(&bam_header());
    clean.extend_from_slice(&member_a);
    clean.extend_from_slice(&member_b);
    let mut dirty = bgzf_member(&bam_header());
    dirty.extend_from_slice(&member_a);
    dirty.extend((0..57u8).map(|i| i.wrapping_mul(37) | 0x80));
    dirty.extend_from_slice(&member_b);
    let (clean_result, clean_output) = run(&clean, 0, false);
    let (dirty_result, dirty_output) = run(&dirty, 0, false);
    assert_eq!(clean_output, dirty_output);
    assert_eq!(clean_result.unwrap().n_sequences, 2);
    let counters = dirty_result.unwrap();
    assert_eq!(counters.n_sequences, 2);
    assert_eq!(counters.n_corrupted, 1);
}

#[test]
fn record_may_span_two_blocks() {
    let record = bam_record("split", b"ACGTACGTAC", &[9; 10]);
    let mut file = bgzf_member(&bam_header());
    file.extend_from_slice(&bgzf_member(&record[..40]));
    file.extend_from_slice(&bgzf_member(&record[40..]));
    let (result, output) = run(&file, 0, false);
    assert_eq!(output, fastq_of("split", b"ACGTACGTAC", &[9; 10]));
    let counters = result.unwrap();
    assert_eq!(counters.n_sequences, 1);
    assert_eq!(counters.n_blocks, 2);
}

#[test]
fn truncated_record_ends_the_run_quietly() {
    let record = bam_record("cut", b"ACGTACGTAC", &[9; 10]);
    let mut file = bgzf_member(&bam_header());
    file.extend_from_slice(&bgzf_member(&record[..40]));
    let (result, output) = run(&file, 0, false);
    assert!(output.is_empty());
    assert_eq!(
        result.unwrap(),
        Counters { n_sequences: 0, n_blocks: 1, n_corrupted: 0 }
    );
}

#[test]
fn short_name_gives_the_record_up() {
    let mut record = bam_record("x", b"ACGT", &[1, 2, 3, 4]);
    assert_eq!(record[12], 2);
    record.extend_from_slice(&[0u8; 8]);
    let mut file = bgzf_member(&bam_header());
    file.extend_from_slice(&bgzf_member(&record));
    file.extend_from_slice(&bgzf_member(&bam_record("ok", b"ACGT", &[1, 2, 3, 4])));
    let (result, output) = run(&file, 0, false);
    assert_eq!(output, fastq_of("ok", b"ACGT", &[1, 2, 3, 4]));
    let counters = result.unwrap();
    assert_eq!(counters.n_sequences, 1);
    assert_eq!(counters.n_corrupted, 1);
}

#[test]
fn empty_input_is_buffer_terminated() {
    let (result, output) = run(&[], 0, false);
    assert_eq!(result.unwrap_err().kind, BamErrorKind::BufferTerminated);
    assert!(output.is_empty());
}

#[test]
fn first_block_without_magic_is_refused() {
    let file = bgzf_member(b"SAM\x01 and more");
    let (result, _) = run(&file, 0, false);
    let error = result.unwrap_err();
    assert_eq!(error.kind, BamErrorKind::IncorrectMagicNumber);
    assert_eq!(error.offset, Some(file.len()));
    let short = bgzf_member(b"BAM");
    let (result, _) = run(&short, 0, false);
    assert_eq!(result.unwrap_err().kind, BamErrorKind::IncorrectMagicNumber);
}

#[test]
fn read_next_block_returns_the_payload() {
    let payload = b"the quick brown fox jumps over the lazy dog".to_vec();
    let mut file = bgzf_member(&payload);
    let first_len = file.len();
    file.extend_from_slice(&bgzf_member(b"second"));
    let mut source = ByteSource::new(file);
    assert_eq!(read_next_block(&mut source), Ok(payload));
    assert_eq!(source.position(), first_len);
    assert_eq!(read_next_block(&mut source), Ok(b"second".to_vec()));
    let error = read_next_block(&mut source).unwrap_err();
    assert_eq!(error.kind, BamErrorKind::BufferTerminated);
    assert_eq!(error.offset, Some(source.position()));
}

#[test]
fn read_next_block_reports_each_kind_of_damage() {
    let member = bgzf_member(b"some payload of a block");
    let n = member.len();

    let mut wrong_magic = member.clone();
    wrong_magic[1] = 0;
    let mut source = ByteSource::new(wrong_magic);
    let error = read_next_block(&mut source).unwrap_err();
    assert_eq!(error, BamHandleError { kind: BamErrorKind::BlockCorrupted, offset: Some(12) });

    let mut wrong_tag = member.clone();
    wrong_tag[13] = b'D';
    assert_eq!(
        kind_of(read_next_block(&mut ByteSource::new(wrong_tag))),
        BamErrorKind::BlockCorrupted
    );

    let mut wrong_slen = member.clone();
    wrong_slen[14] = 3;
    let mut source = ByteSource::new(wrong_slen);
    let error = read_next_block(&mut source).unwrap_err();
    assert_eq!(error, BamHandleError { kind: BamErrorKind::BlockCorrupted, offset: Some(18) });

    let mut small_bsize = member.clone();
    small_bsize[16] = 24;
    small_bsize[17] = 0;
    assert_eq!(
        kind_of(read_next_block(&mut ByteSource::new(small_bsize))),
        BamErrorKind::BlockCorrupted
    );

    let mut bad_stream = member.clone();
    for byte in bad_stream[18..n - 8].iter_mut() {
        *byte = 0xff;
    }
    assert_eq!(
        kind_of(read_next_block(&mut ByteSource::new(bad_stream))),
        BamErrorKind::BlockCorrupted
    );

    let mut wrong_crc = member.clone();
    wrong_crc[n - 8] ^= 1;
    let mut source = ByteSource::new(wrong_crc);
    let error = read_next_block(&mut source).unwrap_err();
    assert_eq!(
        error,
        BamHandleError { kind: BamErrorKind::InconsistentChecksum, offset: Some(n) }
    );

    let mut wrong_size = member.clone();
    wrong_size[n - 4] ^= 1;
    assert_eq!(
        kind_of(read_next_block(&mut ByteSource::new(wrong_size))),
        BamErrorKind::InconsistentBlockSize
    );

    let cut = member[..n - 3].to_vec();
    let mut source = ByteSource::new(cut);
    let error = read_next_block(&mut source).unwrap_err();
    assert_eq!(
        error,
        BamHandleError { kind: BamErrorKind::BufferTerminated, offset: Some(n - 3) }
    );
}

#[test]
fn scan_next_block_finds_the_first_header_after_junk() {
    let payload = b"payload behind junk".to_vec();
    let mut data = vec![7u8, 31, 139, 8, 31, 31, 139, 8, 4, 0, 1, 2, 3, 31];
    let junk_len = data.len();
    data.extend_from_slice(&bgzf_member(&payload));
    let total = data.len();
    let mut source = ByteSource::new(data);
    assert_eq!(scan_next_block(&mut source), Ok(payload));
    assert_eq!(source.position(), total);
    assert!(junk_len > 0);
    let error = scan_next_block(&mut source).unwrap_err();
    assert_eq!(
        error,
        BamHandleError { kind: BamErrorKind::BufferTerminated, offset: Some(total) }
    );
}

#[test]
fn scan_next_block_skips_the_subfields_after_the_first() {
    let payload = b"with a second subfield".to_vec();
    let cdata = deflate_raw(&payload);
    let xlen: u16 = 11;
    let bsize = (cdata.len() + 19 + xlen as usize) as u16;
    let mut member = vec![31u8, 139, 8, 4, 0, 0, 0, 0, 0, 255];
    member.extend_from_slice(&xlen.to_le_bytes());
    member.extend_from_slice(&[66, 67, 2, 0]);
    member.extend_from_slice(&bsize.to_le_bytes());
    member.extend_from_slice(&[b'X', b'Y', 1, 0, 9]);
    member.extend_from_slice(&cdata);
    member.extend_from_slice(&crc32fast::hash(&payload).to_le_bytes());
    member.extend_from_slice(&(payload.len() as u32).to_le_bytes());
    assert_eq!(scan_next_block(&mut ByteSource::new(member.clone())), Ok(payload.clone()));
    assert_eq!(read_next_block(&mut ByteSource::new(member)), Ok(payload));
}

#[test]
fn scan_next_block_without_header_ends_the_input() {
    let data = vec![31u8; 100];
    let mut source = ByteSource::new(data);
    let error = scan_next_block(&mut source).unwrap_err();
    assert_eq!(
        error,
        BamHandleError { kind: BamErrorKind::BufferTerminated, offset: Some(100) }
    );
}

#[test]
fn window_shifts_to_the_next_byte_31() {
    let mut window = vec![0u8; 18];
    assert_eq!(shift_distance(&window), 18);
    window[0] = 31;
    assert_eq!(shift_distance(&window), 18);
    window[17] = 31;
    assert_eq!(shift_distance(&window), 17);
    window[5] = 31;
    assert_eq!(shift_distance(&window), 5);
    window[1] = 31;
    assert_eq!(shift_distance(&window), 1);
}

#[test]
fn window_is_a_header_only_with_all_four_marks() {
    let good = vec![31u8, 139, 8, 4, 0, 0, 0, 0, 0, 255, 6, 0, 66, 67, 2, 0, 26, 0];
    assert!(window_is_plausible(&good));
    let mut bsize_at_floor = good.clone();
    bsize_at_floor[16] = 25;
    assert!(!window_is_plausible(&bsize_at_floor));
    let mut short_extra = good.clone();
    short_extra[10] = 5;
    assert!(!window_is_plausible(&short_extra));
    let mut other_tag = good.clone();
    other_tag[12] = 67;
    assert!(!window_is_plausible(&other_tag));
    let mut other_flag = good.clone();
    other_flag[3] = 0;
    assert!(!window_is_plausible(&other_flag));
    let mut other_slen = good.clone();
    other_slen[14] = 9;
    assert!(window_is_plausible(&other_slen));
}

#[test]
fn inflate_gives_back_what_was_deflated() {
    let text = b"hello, hello, hello, world".to_vec();
    let packed = deflate_raw(&text);
    assert_ne!(packed, text);
    assert_eq!(decompress_without_header(packed), Ok(text));
}

#[test]
fn inflate_grows_the_buffer_until_the_stream_fits() {
    let text = vec![b'A'; 60000];
    let packed = deflate_raw(&text);
    assert!(packed.len() < 256);
    assert_eq!(decompress_without_header(packed), Ok(text));
}

#[test]
fn inflate_gives_up_beyond_the_largest_buffer() {
    let text = vec![b'A'; 70000];
    let packed = deflate_raw(&text);
    assert!(packed.len() < 256);
    assert_eq!(decompress_without_header(packed), Err(InflateError::TooLarge));
}

fn noise(n: usize) -> Vec<u8> {
    let mut x: u32 = 0x2545f491;
    let mut out = Vec::with_capacity(n);
    for _ in 0..n {
        x ^= x << 13;
        x ^= x >> 17;
        x ^= x << 5;
        out.push((x >> 11) as u8);
    }
    out
}

#[test]
fn inflate_holds_the_cap_against_the_first_buffer_too() {
    let mut text = noise(40000);
    text.extend_from_slice(&vec![0u8; 95000]);
    let packed = deflate_raw(&text);
    assert!(packed.len() >= 32768);
    assert!(4 * packed.len() >= text.len());
    assert!(text.len() > 131070);
    assert_eq!(decompress_without_header(packed), Err(InflateError::TooLarge));
    let mut fits = noise(40000);
    fits.extend_from_slice(&vec![0u8; 91070]);
    assert_eq!(fits.len(), 131070);
    assert_eq!(decompress_without_header(deflate_raw(&fits)), Ok(fits));
}

#[test]
fn payload_of_a_block_is_at_most_65535_bytes() {
    let largest = vec![b'C'; 65535];
    let member = bgzf_member(&largest);
    assert_eq!(read_next_block(&mut ByteSource::new(member.clone())), Ok(largest.clone()));
    assert_eq!(scan_next_block(&mut ByteSource::new(member)), Ok(largest));
    let too_large = bgzf_member(&vec![b'C'; 65536]);
    let n = too_large.len();
    let mut source = ByteSource::new(too_large.clone());
    assert_eq!(
        read_next_block(&mut source),
        Err(BamHandleError { kind: BamErrorKind::BlockCorrupted, offset: Some(n) })
    );
    assert_eq!(
        kind_of(scan_next_block(&mut ByteSource::new(too_large))),
        BamErrorKind::BlockCorrupted
    );
    let mut file = bgzf_member(&bam_header());
    file.extend_from_slice(&bgzf_member(&vec![0u8; 70000]));
    file.extend_from_slice(&bgzf_member(&bam_record("ok", b"ACGT", &[1, 2, 3, 4])));
    let (result, output) = run(&file, 0, false);
    assert_eq!(output, fastq_of("ok", b"ACGT", &[1, 2, 3, 4]));
    let counters = result.unwrap();
    assert_eq!(counters.n_blocks, 1);
    assert_eq!(counters.n_corrupted, 1);
}

#[test]
fn inflate_refuses_what_is_no_stream() {
    assert_eq!(decompress_without_header(vec![0xffu8; 40]), Err(InflateError::Invalid));
}

#[test]
fn inflate_of_a_cut_stream_never_ends() {
    let packed = deflate_raw(b"a stream that is cut short before its end, with some text");
    let cut = packed[..packed.len() - 4].to_vec();
    assert_eq!(decompress_without_header(cut), Err(InflateError::TooLarge));
}

#[test]
fn next_attempt_doubles_up_to_the_cap() {
    assert!(matches!(
        after_attempt(Attempt::Complete(vec![1, 2, 3]), 1024),
        NextAttempt::Done(Ok(out)) if out == vec![1, 2, 3]
    ));
    assert!(matches!(
        after_attempt(Attempt::Invalid, 1024),
        NextAttempt::Done(Err(InflateError::Invalid))
    ));
    assert!(matches!(
        after_attempt(Attempt::Complete(vec![7; 131070]), 262140),
        NextAttempt::Done(Ok(out)) if out.len() == 131070
    ));
    assert!(matches!(
        after_attempt(Attempt::Complete(vec![7; 131071]), 262140),
        NextAttempt::Done(Err(InflateError::TooLarge))
    ));
    assert!(matches!(after_attempt(Attempt::Unfinished, 1024), NextAttempt::Retry(2048)));
    assert!(matches!(after_attempt(Attempt::Unfinished, 65535), NextAttempt::Retry(131070)));
    assert!(matches!(
        after_attempt(Attempt::Unfinished, 65536),
        NextAttempt::Done(Err(InflateError::TooLarge))
    ));
    assert!(matches!(
        after_attempt(Attempt::Unfinished, 0),
        NextAttempt::Done(Err(InflateError::TooLarge))
    ));
}

#[test]
fn trailer_is_checked_checksum_first() {
    assert_eq!(check_trailer(10, 0xdeadbeef, 0xdeadbeef, 10), Ok(()));
    assert_eq!(check_trailer(10, 1, 2, 10), Err(BamErrorKind::InconsistentChecksum));
    assert_eq!(check_trailer(10, 1, 2, 11), Err(BamErrorKind::InconsistentChecksum));
    assert_eq!(check_trailer(10, 2, 2, 11), Err(BamErrorKind::InconsistentBlockSize));
}

#[test]
fn numbers_are_read_low_byte_first() {
    let bytes = vec![0u8, 0x34, 0x12, 0x78, 0x56, 0xff];
    assert_eq!(u16_at(&bytes, 1), 0x1234);
    assert_eq!(u16_at(&bytes, 4), 0xff56);
    assert_eq!(u32_at(&bytes, 1), 0x56781234);
    assert_eq!(u32_at(&bytes, 2), 0xff567812);
}

#[test]
fn source_reads_exactly_or_runs_dry() {
    let mut source = ByteSource::new(vec![1, 2, 3, 4, 5]);
    assert_eq!(source.read_exact(2), Some(vec![1, 2]));
    assert_eq!(source.position(), 2);
    assert_eq!(source.read_exact(0), Some(vec![]));
    assert_eq!(source.read_exact(4), None);
    assert_eq!(source.position(), 5);
    assert_eq!(source.read_exact(1), None);
    assert_eq!(source.read_exact(0), Some(vec![]));
}

#[test]
fn layout_follows_the_fixed_part() {
    let mut record = bam_record("name", b"ACGTA", &[1, 2, 3, 4, 5]);
    record[16] = 2;
    let layout = parse_layout(&record, false);
    assert_eq!(layout.drain_pos, 4 + 32 + 5 + 3 + 5);
    assert_eq!(layout.l_read_name, 5);
    assert_eq!(layout.l_seq, 5);
    assert_eq!(layout.seq_ptr, 36 + 5 + 8);
    assert_eq!(layout.min_size, 36 + 5 + 8 + 3 + 5);
    assert!(!layout.is_valid());
    let without = parse_layout(&record, true);
    assert_eq!(without.min_size, 36 + 5 + 8 + 3);
    assert!(!without.is_valid());
    record[0] += 3;
    assert_eq!(parse_layout(&record, true).drain_pos, 52);
    assert!(parse_layout(&record, true).is_valid());
    assert!(!parse_layout(&record, false).is_valid());
    record[0] += 5;
    assert!(parse_layout(&record, false).is_valid());
}

#[test]
fn record_is_written_after_what_the_sink_holds() {
    let record = bam_record("q", b"TG", &[0, 93]);
    let mut padded = record.clone();
    padded[12] = 3;
    padded.insert(37, 0);
    padded[0] += 1;
    let layout = parse_layout(&padded, false);
    assert!(layout.is_valid());
    let mut output = b"#".to_vec();
    assert!(emit_record(&padded, &layout, false, &mut output));
    assert_eq!(output, b"#@q\0\nTG\n+\n!~\n".to_vec());
}

#[test]
fn extractor_goes_step_by_step() {
    let mut file = bgzf_member(&bam_header());
    let header_len = file.len();
    file.extend_from_slice(&bgzf_member(&bam_record("r1", b"ACGT", &[30, 30, 30, 30])));
    let total = file.len();
    let options = Options { limit: 0, noqual: false };
    let mut extractor = Extractor::open(file).unwrap();
    assert_eq!(extractor.source.position(), header_len);
    assert!(extractor.buffer.is_empty());
    extractor.step(&options);
    assert_eq!(extractor.source.position(), total);
    assert_eq!(extractor.counters.n_blocks, 1);
    assert_eq!(extractor.buffer.len(), 45);
    extractor.step(&options);
    assert_eq!(extractor.counters.n_sequences, 1);
    assert!(extractor.buffer.is_empty());
    assert_eq!(extractor.written, b"@r1\nACGT\n+\n????\n".to_vec());
    assert!(!extractor.done);
    extractor.step(&options);
    assert!(extractor.done);
    assert_eq!(extractor.counters.n_corrupted, 0);
}

#[test]
fn kinds_have_their_codes_and_texts() {
    assert_eq!(BamErrorKind::NoBAMFile.code(), 0);
    assert_eq!(BamErrorKind::BlockCorrupted.code(), 1);
    assert_eq!(BamErrorKind::ExceedExpectedSize.code(), 2);
    assert_eq!(BamErrorKind::IncorrectMagicNumber.code(), 3);
    assert_eq!(BamErrorKind::BufferTerminated.code(), 4);
    assert_eq!(BamErrorKind::IncorrectGzipMagicNumber.code(), 5);
    assert_eq!(BamErrorKind::InconsistentChecksum.code(), 6);
    assert_eq!(BamErrorKind::InconsistentBlockSize.code(), 7);
    assert_eq!(BamErrorKind::NoBAMFile.description(), "BAM file does not exist.");
    assert_eq!(BamErrorKind::ExceedExpectedSize.description(), "Exceed expected block size");
    assert_eq!(
        BamErrorKind::IncorrectGzipMagicNumber.description(),
        "Gzip magic number incorrect"
    );
    assert_eq!(
        BamHandleError::new(BamErrorKind::IncorrectMagicNumber).message(),
        "Incorrect magic number was given"
    );
    assert_eq!(
        BamHandleError::at(BamErrorKind::BufferTerminated, 7).message(),
        "Buffer terminated"
    );
    assert_eq!(BamHandleError::at(BamErrorKind::BlockCorrupted, 7).offset, Some(7));
    assert_eq!(
        BamHandleError::new(BamErrorKind::InconsistentChecksum).message(),
        "Inconsist CRC32 checksum"
    );
    assert_eq!(
        BamHandleError::new(BamErrorKind::InconsistentBlockSize).message(),
        "Actual size is different size"
    );
    assert_eq!(BamHandleError::new(BamErrorKind::BlockCorrupted).message(), "Block corrupted");
}

#[test]
fn accepted_payload_has_the_declared_checksum_and_size() {
    let payload = b"payload whose checksum and size are declared".to_vec();
    let member = bgzf_member(&payload);
    let n = member.len();
    let got = read_next_block(&mut ByteSource::new(member.clone())).unwrap();
    assert_eq!(crc32fast::hash(&got).to_le_bytes().to_vec(), member[n - 8..n - 4].to_vec());
    assert_eq!((got.len() as u32).to_le_bytes().to_vec(), member[n - 4..].to_vec());
    let found = scan_next_block(&mut ByteSource::new(member.clone())).unwrap();
    assert_eq!(found, got);
}

#[test]
fn nothing_is_counted_twice() {
    let (mut file, expected) = file_of_blocks(10, 6);
    let n_members = 12;
    let (clean, _) = run(&file, 0, false);
    let clean = clean.unwrap();
    assert!(clean.n_sequences + clean.n_corrupted <= expected.len() as u64 + n_members);
    for at in [file.len() / 3, file.len() / 2, 2 * file.len() / 3] {
        file[at] ^= 0x55;
        file[at + 1] ^= 0xaa;
    }
    let (damaged, _) = run(&file, 0, false);
    let damaged = damaged.unwrap();
    assert!(damaged.n_corrupted >= 1);
    assert!(damaged.n_corrupted <= n_members);
    assert!(damaged.n_sequences + damaged.n_corrupted <= expected.len() as u64 + n_members);
}

#[test]
fn junk_shorter_than_a_header_costs_the_next_member() {
    let (name_a, bases_a, quals_a) = sample_read(1);
    let (name_b, bases_b, quals_b) = sample_read(2);
    let (name_c, bases_c, quals_c) = sample_read(3);
    let mut file = bgzf_member(&bam_header());
    file.extend_from_slice(&bgzf_member(&bam_record(&name_a, &bases_a, &quals_a)));
    file.extend_from_slice(&[0x80u8; 5]);
    file.extend_from_slice(&bgzf_member(&bam_record(&name_b, &bases_b, &quals_b)));
    file.extend_from_slice(&bgzf_member(&bam_record(&name_c, &bases_c, &quals_c)));
    let (result, output) = run(&file, 0, false);
    let mut expected = fastq_of(&name_a, &bases_a, &quals_a);
    expected.extend_from_slice(&fastq_of(&name_c, &bases_c, &quals_c));
    assert_eq!(output, expected);
    let counters = result.unwrap();
    assert_eq!(counters.n_sequences, 2);
    assert_eq!(counters.n_corrupted, 1);
}

#[test]
fn false_header_is_counted_and_passed() {
    let (name, bases, quals) = sample_read(5);
    let mut fake = vec![31u8, 139, 8, 4, 0, 0, 0, 0, 0, 255, 6, 0, 66, 67, 2, 0, 29, 0];
    fake.extend_from_slice(&[0xff; 4]);
    fake.extend_from_slice(&[0u8; 8]);
    let mut file = bgzf_member(&bam_header());
    file.extend_from_slice(&[0x80u8; 12]);
    file.extend_from_slice(&fake);
    file.extend_from_slice(&bgzf_member(&bam_record(&name, &bases, &quals)));
    let (result, output) = run(&file, 0, false);
    assert_eq!(output, fastq_of(&name, &bases, &quals));
    let counters = result.unwrap();
    assert_eq!(counters.n_sequences, 1);
    assert_eq!(counters.n_blocks, 1);
    assert_eq!(counters.n_corrupted, 2);
}

#[test]
fn items_are_reached_from_the_crate_root() {
    let mut output = Vec::new();
    let options = bamsalvage::Options { limit: 0, noqual: true };
    let result = bamsalvage::retrieve_fastq(vec![0u8; 17], &mut output, &options);
    assert_eq!(
        result,
        Err(bamsalvage::BamHandleError {
            kind: bamsalvage::BamErrorKind::BufferTerminated,
            offset: Some(17),
        })
    );
}

#[test]
fn gaps_and_a_bad_record_are_each_counted_once() {
    let (name_a, bases_a, quals_a) = sample_read(11);
    let (name_b, bases_b, quals_b) = sample_read(12);
    let (name_c, bases_c, quals_c) = sample_read(13);
    let member_a = bgzf_member(&bam_record(&name_a, &bases_a, &quals_a));
    let mut spoilt = bam_record(&name_b, &bases_b, &quals_b);
    spoilt.extend_from_slice(&bam_record("bad", b"ACGT", &[1, 200, 3, 4]));
    spoilt.extend_from_slice(&bam_record("lost", b"ACGT", &[1, 2, 3, 4]));
    let member_b = bgzf_member(&spoilt);
    let member_c = bgzf_member(&bam_record(&name_c, &bases_c, &quals_c));
    let junk: Vec<u8> = (0..40u8).map(|i| i | 0x80).collect();

    let mut clean = bgzf_member(&bam_header());
    clean.extend_from_slice(&member_a);
    clean.extend_from_slice(&member_b);
    clean.extend_from_slice(&member_c);
    clean.extend_from_slice(&bgzf_member(&[]));
    let mut dirty = bgzf_member(&bam_header());
    dirty.extend_from_slice(&junk);
    dirty.extend_from_slice(&member_a);
    dirty.extend_from_slice(&member_b);
    dirty.extend_from_slice(&junk);
    dirty.extend_from_slice(&member_c);
    dirty.extend_from_slice(&bgzf_member(&[]));

    let mut expected = fastq_of(&name_a, &bases_a, &quals_a);
    expected.extend_from_slice(&fastq_of(&name_b, &bases_b, &quals_b));
    expected.extend_from_slice(&fastq_of(&name_c, &bases_c, &quals_c));

    let (clean_result, clean_output) = run(&clean, 0, false);
    assert_eq!(clean_output, expected);
    assert_eq!(
        clean_result.unwrap(),
        Counters { n_sequences: 3, n_blocks: 4, n_corrupted: 1 }
    );
    // Five records and five members: nothing is counted twice.
    assert!(3 + 1 <= 5 + 5);

    // The gap behind the spoilt member is met by the search that is pending:
    // only the first gap, met by a read in place, is counted.
    let (dirty_result, dirty_output) = run(&dirty, 0, false);
    assert_eq!(dirty_output, expected);
    assert_eq!(
        dirty_result.unwrap(),
        Counters { n_sequences: 3, n_blocks: 4, n_corrupted: 2 }
    );
    for limit in [1u64, 2, 3, 4] {
        let (a, _) = run(&clean, limit, false);
        let (b, _) = run(&dirty, limit, false);
        assert_eq!(a.unwrap().n_sequences, b.unwrap().n_sequences);
    }
}

#[test]
fn damage_behind_intact_blocks_is_counted() {
    let (name, bases, quals) = sample_read(21);
    let mut file = bgzf_member(&bam_header());
    file.extend_from_slice(&bgzf_member(&bam_record(&name, &bases, &quals)));
    let mut broken = bgzf_member(&bam_record("gone", b"ACGT", &[1, 2, 3, 4]));
    let n = broken.len();
    broken[n - 6] ^= 0x10;
    file.extend_from_slice(&broken);
    let (result, output) = run(&file, 0, false);
    assert_eq!(output, fastq_of(&name, &bases, &quals));
    let counters = result.unwrap();
    assert_eq!(counters.n_sequences, 1);
    assert!(counters.n_corrupted >= 1);
}
