use vstd::prelude::*;

verus! {

/// The base letter (as ASCII) that a 4-bit code stands for:
/// `=ACMGRSVTWYHKDBN`.
pub open spec fn base_of(code: int) -> u8 {
    if code == 0 {
        61
    } else if code == 1 {
        65
    } else if code == 2 {
        67
    } else if code == 3 {
        77
    } else if code == 4 {
        71
    } else if code == 5 {
        82
    } else if code == 6 {
        83
    } else if code == 7 {
        86
    } else if code == 8 {
        84
    } else if code == 9 {
        87
    } else if code == 10 {
        89
    } else if code == 11 {
        72
    } else if code == 12 {
        75
    } else if code == 13 {
        68
    } else if code == 14 {
        66
    } else {
        78
    }
}

/// The 4-bit code at index `i` of a packed sequence: the high half of byte
/// `i / 2` where `i` is even, the low half where it is odd.
pub open spec fn code_at(packed: Seq<u8>, i: int) -> int {
    if i % 2 == 0 {
        packed[i / 2] as int / 16
    } else {
        packed[i / 2] as int % 16
    }
}

/// The number of bytes that hold `length` packed 4-bit codes.
pub open spec fn packed_len(length: int) -> int {
    (length + 1) / 2
}

/// The `length` base letters that `packed` holds.
pub open spec fn decode_sequence(packed: Seq<u8>, length: int) -> Seq<u8> {
    Seq::new(length as nat, |i: int| base_of(code_at(packed, i)))
}

/// The largest quality value that has a printable form.
pub const MAX_QUAL: u8 = 134;

/// Whether every quality value in `quals` has a printable form.
pub open spec fn quals_printable(quals: Seq<u8>) -> bool {
    forall|i: int| 0 <= i < quals.len() ==> quals[i] <= MAX_QUAL
}

/// The Phred+33 text of `quals`.
pub open spec fn decode_qual(quals: Seq<u8>) -> Seq<u8> {
    Seq::new(quals.len(), |i: int| (quals[i] + 33) as u8)
}

/// The upper-case hexadecimal digit (as ASCII) of a value below 16.
pub open spec fn hex_digit(v: int) -> u8 {
    if v < 10 {
        (48 + v) as u8
    } else {
        (55 + v) as u8
    }
}

/// A hex dump of `bytes`: for each byte a space and its two digits.
pub open spec fn hex_dump(bytes: Seq<u8>) -> Seq<u8> {
    Seq::new(
        3 * bytes.len(),
        |i: int|
            if i % 3 == 0 {
                32u8
            } else if i % 3 == 1 {
                hex_digit(bytes[i / 3] as int / 16)
            } else {
                hex_digit(bytes[i / 3] as int % 16)
            },
    )
}

fn base_letter(code: u8) -> (letter: u8)
    requires
        code < 16,
    ensures
        letter == base_of(code as int),
{
    if code == 0 {
        61
    } else if code == 1 {
        65
    } else if code == 2 {
        67
    } else if code == 3 {
        77
    } else if code == 4 {
        71
    } else if code == 5 {
        82
    } else if code == 6 {
        83
    } else if code == 7 {
        86
    } else if code == 8 {
        84
    } else if code == 9 {
        87
    } else if code == 10 {
        89
    } else if code == 11 {
        72
    } else if code == 12 {
        75
    } else if code == 13 {
        68
    } else if code == 14 {
        66
    } else {
        78
    }
}

fn hex_letter(v: u8) -> (letter: u8)
    requires
        v < 16,
    ensures
        letter == hex_digit(v as int),
{
    if v < 10 {
        48 + v
    } else {
        55 + v
    }
}

/// Decodes the `length` bases packed four bits each in `buffer` from index
/// `start` on. A last low half-byte that belongs to no base is ignored.
pub fn convert_sequence(buffer: &Vec<u8>, start: usize, length: usize) -> (seq: Vec<u8>)
    requires
        start + packed_len(length as int) <= buffer@.len(),
    ensures
        seq@ == decode_sequence(
            buffer@.subrange(start as int, start + packed_len(length as int)),
            length as int,
        ),
{
    let ghost packed = buffer@.subrange(start as int, start + packed_len(length as int));
    let total: usize = buffer.len();
    let mut seq: Vec<u8> = Vec::with_capacity(length);
    let mut i: usize = 0;
    while i < length
        invariant
            i <= length,
            total == buffer@.len(),
            start + packed_len(length as int) <= buffer@.len(),
            packed == buffer@.subrange(start as int, start + packed_len(length as int)),
            seq@ == decode_sequence(packed, i as int),
        decreases length - i,
    {
        let b: u8 = buffer[start + i / 2];
        let code: u8 = if i % 2 == 0 {
            b >> 4
        } else {
            b & 0x0f
        };
        proof {
            assert(b >> 4 == b / 16) by (bit_vector);
            assert(b & 0x0f == b % 16) by (bit_vector);
            assert(packed[i as int / 2] == b);
            assert(code as int == code_at(packed, i as int));
        }
        seq.push(base_letter(code));
        i = i + 1;
    }
    seq
}

/// Turns the `length` quality values in `buffer` from index `start` on into
/// Phred+33 text, or gives `None` where one of them has no printable form.
pub fn convert_qual(buffer: &Vec<u8>, start: usize, length: usize) -> (qual: Option<Vec<u8>>)
    requires
        start + length <= buffer@.len(),
    ensures
        qual is Some <==> quals_printable(buffer@.subrange(start as int, start + length)),
        qual matches Some(text) ==> text@ == decode_qual(
            buffer@.subrange(start as int, start + length),
        ),
{
    let ghost quals = buffer@.subrange(start as int, start + length);
    let total: usize = buffer.len();
    let mut text: Vec<u8> = Vec::with_capacity(length);
    let mut i: usize = 0;
    while i < length
        invariant
            i <= length,
            total == buffer@.len(),
            start + length <= buffer@.len(),
            quals == buffer@.subrange(start as int, start + length),
            text@.len() == i,
            forall|j: int| 0 <= j < i ==> quals[j] <= MAX_QUAL,
            forall|j: int| 0 <= j < i ==> text@[j] == (quals[j] + 33) as u8,
        decreases length - i,
    {
        let q: u8 = buffer[start + i];
        assert(quals[i as int] == q);
        if q > MAX_QUAL {
            return None;
        }
        text.push(33 + q);
        i = i + 1;
    }
    assert(text@ =~= decode_qual(quals));
    Some(text)
}

/// A hex dump of the `span` bytes of `buffer` that lie around `pos`, from
/// `pos - span / 2` on: for each byte a space and two upper-case digits.
pub fn get_hex_string(buffer: &Vec<u8>, pos: usize, span: usize) -> (dump: Vec<u8>)
    requires
        span / 2 <= pos,
        pos - span / 2 + span <= buffer@.len(),
    ensures
        dump@ == hex_dump(buffer@.subrange(pos - span / 2, pos - span / 2 + span)),
{
    let first: usize = pos - span / 2;
    let ghost bytes = buffer@.subrange(first as int, first + span);
    let total: usize = buffer.len();
    let mut dump: Vec<u8> = Vec::new();
    let mut i: usize = 0;
    while i < span
        invariant
            i <= span,
            total == buffer@.len(),
            first + span <= buffer@.len(),
            bytes == buffer@.subrange(first as int, first + span),
            dump@ == hex_dump(bytes.subrange(0, i as int)),
        decreases span - i,
    {
        let b: u8 = buffer[first + i];
        proof {
            assert(b >> 4 == b / 16) by (bit_vector);
            assert(b & 0x0f == b % 16) by (bit_vector);
            assert(bytes[i as int] == b);
        }
        let ghost before = dump@;
        dump.push(32);
        dump.push(hex_letter(b >> 4));
        dump.push(hex_letter(b & 0x0f));
        assert(dump@ =~= hex_dump(bytes.subrange(0, i + 1)));
        i = i + 1;
    }
    assert(bytes.subrange(0, span as int) =~= bytes);
    dump
}

/// The 4-bit code of a base letter; that of `N` for a byte that is none.
pub open spec fn code_of(letter: u8) -> int {
    if letter == 61 {
        0
    } else if letter == 65 {
        1
    } else if letter == 67 {
        2
    } else if letter == 77 {
        3
    } else if letter == 71 {
        4
    } else if letter == 82 {
        5
    } else if letter == 83 {
        6
    } else if letter == 86 {
        7
    } else if letter == 84 {
        8
    } else if letter == 87 {
        9
    } else if letter == 89 {
        10
    } else if letter == 72 {
        11
    } else if letter == 75 {
        12
    } else if letter == 68 {
        13
    } else if letter == 66 {
        14
    } else {
        15
    }
}

/// Whether `letter` is one of the sixteen base letters.
pub open spec fn is_base_letter(letter: u8) -> bool {
    exists|code: int| 0 <= code < 16 && base_of(code) == letter
}

/// The packed form of a run of base letters: two codes to the byte, the
/// first in the high half, and zero in a last low half that is left over.
pub open spec fn encode_sequence(bases: Seq<u8>) -> Seq<u8> {
    Seq::new(
        packed_len(bases.len() as int) as nat,
        |k: int|
            (16 * code_of(bases[2 * k]) + if 2 * k + 1 < bases.len() {
                code_of(bases[2 * k + 1])
            } else {
                0
            }) as u8,
    )
}

/// Each of the sixteen codes comes back from its letter.
pub proof fn lemma_code_round_trip(code: int)
    requires
        0 <= code < 16,
    ensures
        code_of(base_of(code)) == code,
        is_base_letter(base_of(code)),
{
}

/// Each base letter comes back from its code.
pub proof fn lemma_letter_round_trip(letter: u8)
    requires
        is_base_letter(letter),
    ensures
        0 <= code_of(letter) < 16,
        base_of(code_of(letter)) == letter,
{
}

/// Base letters that are packed come back unchanged from the decoder.
pub proof fn lemma_sequence_round_trip(bases: Seq<u8>)
    requires
        forall|i: int| 0 <= i < bases.len() ==> is_base_letter(#[trigger] bases[i]),
    ensures
        encode_sequence(bases).len() == packed_len(bases.len() as int),
        decode_sequence(encode_sequence(bases), bases.len() as int) == bases,
{
    let packed = encode_sequence(bases);
    let decoded = decode_sequence(packed, bases.len() as int);
    assert forall|i: int| 0 <= i < bases.len() implies decoded[i] == bases[i] by {
        let k = i / 2;
        lemma_letter_round_trip(bases[i]);
        lemma_letter_round_trip(bases[2 * k]);
        if 2 * k + 1 < bases.len() {
            lemma_letter_round_trip(bases[2 * k + 1]);
        }
        assert(code_at(packed, i) == code_of(bases[i]));
    }
    assert(decoded =~= bases);
}

/// Where the number of bases is odd, the low half of the last byte is
/// ignored: the bases depend on the codes before it alone.
pub proof fn lemma_last_half_byte_is_ignored(packed: Seq<u8>, other: Seq<u8>, length: int)
    requires
        0 <= length,
        forall|i: int| 0 <= i < length ==> code_at(packed, i) == code_at(other, i),
    ensures
        decode_sequence(packed, length) == decode_sequence(other, length),
{
    assert(decode_sequence(packed, length) =~= decode_sequence(other, length));
}

/// Printable quality values come back from their text: character by
/// character, the value is the character less 33.
pub proof fn lemma_qual_round_trip(quals: Seq<u8>)
    requires
        quals_printable(quals),
    ensures
        decode_qual(quals).len() == quals.len(),
        forall|i: int| 0 <= i < quals.len() ==> decode_qual(quals)[i] - 33 == quals[i],
{
}

} // verus!
