use crate::checksum::{calculate_crc32, check_trailer, crc32_of, trailer_verdict};
use crate::error::{BamErrorKind, BamHandleError};
use crate::inflate::{decompress_without_header, inflate};
use crate::le::{le_u16_at, le_u32_at, u16_at, u32_at};
use crate::source::ByteSource;
use vstd::prelude::*;

verus! {

/// How reading one block ends: the payload or the kind of failure, and where
/// the cursor then stands.
pub struct BlockOutcome {
    pub result: Result<Seq<u8>, BamErrorKind>,
    pub end: int,
}

/// The four bytes that open a gzip member with an extra field.
pub open spec fn has_gzip_magic(data: Seq<u8>, at: int) -> bool {
    data[at] == 31 && data[at + 1] == 139 && data[at + 2] == 8 && data[at + 3] == 4
}

/// The length of the extra field of the member that starts at `at`.
pub open spec fn xlen_at(data: Seq<u8>, at: int) -> int {
    le_u16_at(data, at + 10)
}

/// The two identifier bytes `B`, `C` of the first extra subfield.
pub open spec fn has_bc_tag(data: Seq<u8>, at: int) -> bool {
    data[at + 12] == 66 && data[at + 13] == 67
}

/// The declared length of the first extra subfield.
pub open spec fn slen_at(data: Seq<u8>, at: int) -> int {
    le_u16_at(data, at + 14)
}

/// The declared size of the member that starts at `at`, less one.
pub open spec fn bsize_at(data: Seq<u8>, at: int) -> int {
    le_u16_at(data, at + 16)
}

/// Whether the 18 bytes from `at` on look like the start of a block.
pub open spec fn plausible_header(data: Seq<u8>, at: int) -> bool {
    &&& 0 <= at
    &&& at + 18 <= data.len()
    &&& has_gzip_magic(data, at)
    &&& has_bc_tag(data, at)
    &&& xlen_at(data, at) >= 6
    &&& bsize_at(data, at) > xlen_at(data, at) + 19
}

/// Whether the header at `at`, extra field included, is that of a block:
/// what a read that does not search asks for.
pub open spec fn exact_header(data: Seq<u8>, at: int) -> bool {
    &&& has_gzip_magic(data, at)
    &&& xlen_at(data, at) >= 6
    &&& has_bc_tag(data, at)
    &&& slen_at(data, at) == 2
    &&& bsize_at(data, at) >= xlen_at(data, at) + 19
}

/// The largest payload that a block can hold.
pub const MAX_PAYLOAD: usize = 65535;

/// What the compressed bytes of a block give: a payload of at most
/// `MAX_PAYLOAD` bytes, held against the checksum and the size that the
/// trailer declares. Bytes that do not inflate, or inflate to more, are a
/// corrupted block.
pub open spec fn payload_outcome(compressed: Seq<u8>, crc_declared: int, isize_declared: int)
    -> Result<Seq<u8>, BamErrorKind> {
    match inflate(compressed) {
        Err(_) => Err(BamErrorKind::BlockCorrupted),
        Ok(payload) => if payload.len() > MAX_PAYLOAD {
            Err(BamErrorKind::BlockCorrupted)
        } else {
            match trailer_verdict(
                payload.len() as int,
                crc32_of(payload) as int,
                crc_declared,
                isize_declared,
            ) {
                Ok(_) => Ok(payload),
                Err(kind) => Err(kind),
            }
        },
    }
}

/// How reading the rest of a block ends when the cursor stands at `at`,
/// before `n` compressed bytes and the eight bytes of the trailer.
pub open spec fn body_outcome(data: Seq<u8>, at: int, n: int) -> BlockOutcome {
    if at + n + 8 > data.len() {
        BlockOutcome { result: Err(BamErrorKind::BufferTerminated), end: data.len() as int }
    } else {
        BlockOutcome {
            result: payload_outcome(
                data.subrange(at, at + n),
                le_u32_at(data, at + n),
                le_u32_at(data, at + n + 4),
            ),
            end: at + n + 8,
        }
    }
}

/// How reading a block ends when the cursor stands at `at` and the block is
/// taken to start there.
pub open spec fn read_outcome(data: Seq<u8>, at: int) -> BlockOutcome {
    if at + 12 > data.len() {
        BlockOutcome { result: Err(BamErrorKind::BufferTerminated), end: data.len() as int }
    } else if !has_gzip_magic(data, at) {
        BlockOutcome { result: Err(BamErrorKind::BlockCorrupted), end: at + 12 }
    } else if at + 12 + xlen_at(data, at) > data.len() {
        BlockOutcome { result: Err(BamErrorKind::BufferTerminated), end: data.len() as int }
    } else if !exact_header(data, at) {
        BlockOutcome {
            result: Err(BamErrorKind::BlockCorrupted),
            end: at + 12 + xlen_at(data, at),
        }
    } else {
        body_outcome(
            data,
            at + 12 + xlen_at(data, at),
            bsize_at(data, at) - xlen_at(data, at) - 19,
        )
    }
}

/// The first position at or after `from` where a plausible header starts.
pub open spec fn first_header(data: Seq<u8>, from: int) -> Option<int>
    decreases data.len() - from,
{
    if from < 0 || from + 18 > data.len() {
        None
    } else if plausible_header(data, from) {
        Some(from)
    } else {
        first_header(data, from + 1)
    }
}

/// How reading a block ends when the cursor stands at `at` and the start of
/// the block is searched for from there on.
pub open spec fn scan_outcome(data: Seq<u8>, at: int) -> BlockOutcome {
    match first_header(data, at) {
        None => BlockOutcome {
            result: Err(BamErrorKind::BufferTerminated),
            end: data.len() as int,
        },
        Some(start) => if start + 12 + xlen_at(data, start) > data.len() {
            BlockOutcome { result: Err(BamErrorKind::BufferTerminated), end: data.len() as int }
        } else {
            body_outcome(
                data,
                start + 12 + xlen_at(data, start),
                bsize_at(data, start) - xlen_at(data, start) - 19,
            )
        },
    }
}

/// Whether what a read returned, and where it left the cursor, is `outcome`.
pub open spec fn agrees(
    returned: Result<Vec<u8>, BamHandleError>,
    cursor: int,
    outcome: BlockOutcome,
) -> bool {
    &&& cursor == outcome.end
    &&& match returned {
        Ok(payload) => outcome.result == Ok::<Seq<u8>, BamErrorKind>(payload@),
        Err(e) => outcome.result == Err::<Seq<u8>, BamErrorKind>(e.kind) && e.offset == Some(
            cursor as usize,
        ),
    }
}

/// A payload that is accepted holds at most `MAX_PAYLOAD` bytes and has
/// the checksum and the length that the trailer declares.
pub proof fn lemma_accepted_payload_matches_trailer(
    compressed: Seq<u8>,
    crc_declared: int,
    isize_declared: int,
)
    ensures
        payload_outcome(compressed, crc_declared, isize_declared) matches Ok(payload) ==> crc32_of(
            payload,
        ) == crc_declared && payload.len() == isize_declared && payload.len() <= MAX_PAYLOAD,
{
}

/// A block that is accepted, read in place or found by a search, holds at
/// most `MAX_PAYLOAD` bytes and has the checksum and the length that its
/// trailer declares: the eight bytes before the place where the cursor is
/// left.
pub proof fn lemma_accepted_block_matches_trailer(data: Seq<u8>, at: int)
    requires
        0 <= at,
    ensures
        read_outcome(data, at).result matches Ok(payload) ==> payload.len() <= MAX_PAYLOAD
            && crc32_of(payload) == le_u32_at(data, read_outcome(data, at).end - 8)
            && payload.len() == le_u32_at(data, read_outcome(data, at).end - 4),
        scan_outcome(data, at).result matches Ok(payload) ==> payload.len() <= MAX_PAYLOAD
            && crc32_of(payload) == le_u32_at(data, scan_outcome(data, at).end - 8)
            && payload.len() == le_u32_at(data, scan_outcome(data, at).end - 4),
{
}

/// No header is plausible between `from` and the first one found from
/// there; without one, none is plausible from there on.
pub proof fn lemma_first_header_is_least(data: Seq<u8>, from: int)
    requires
        0 <= from,
    ensures
        match first_header(data, from) {
            Some(start) => from <= start && plausible_header(data, start) && forall|j: int|
                from <= j < start ==> !plausible_header(data, j),
            None => forall|j: int| from <= j ==> !plausible_header(data, j),
        },
    decreases data.len() - from,
{
    if from + 18 <= data.len() && !plausible_header(data, from) {
        lemma_first_header_is_least(data, from + 1);
    }
}

/// Positions that hold no plausible header can be passed over.
pub proof fn lemma_skip_implausible(data: Seq<u8>, from: int, to: int)
    requires
        0 <= from <= to,
        forall|j: int| from <= j < to ==> !plausible_header(data, j),
    ensures
        first_header(data, from) == first_header(data, to),
    decreases to - from,
{
    if from < to && from + 18 <= data.len() {
        lemma_skip_implausible(data, from + 1, to);
    }
}

/// Reads the compressed bytes and the trailer of a block, inflates the
/// payload and holds it against the trailer.
fn read_block_body(source: &mut ByteSource, n: usize) -> (returned: Result<
    Vec<u8>,
    BamHandleError,
>)
    requires
        old(source).wf(),
        n <= 65535,
    ensures
        final(source).wf(),
        final(source).data@ == old(source).data@,
        agrees(
            returned,
            final(source).pos as int,
            body_outcome(old(source).data@, old(source).pos as int, n as int),
        ),
        returned matches Ok(payload) ==> payload@.len() <= MAX_PAYLOAD,
{
    let ghost data = source.data@;
    let ghost at = source.pos as int;
    let compressed = match source.read_exact(n) {
        Some(bytes) => bytes,
        None => {
            return Err(BamHandleError::at(BamErrorKind::BufferTerminated, source.position()));
        },
    };
    let trailer = match source.read_exact(8) {
        Some(bytes) => bytes,
        None => {
            return Err(BamHandleError::at(BamErrorKind::BufferTerminated, source.position()));
        },
    };
    let crc_declared: u32 = u32_at(&trailer, 0);
    let isize_declared: u32 = u32_at(&trailer, 4);
    proof {
        assert(trailer@.subrange(0, 4) =~= data.subrange(at + n, at + n + 4));
        assert(trailer@.subrange(4, 8) =~= data.subrange(at + n + 4, at + n + 8));
    }
    let payload = match decompress_without_header(compressed) {
        Ok(payload) => payload,
        Err(_) => {
            return Err(BamHandleError::at(BamErrorKind::BlockCorrupted, source.position()));
        },
    };
    if payload.len() > MAX_PAYLOAD {
        return Err(BamHandleError::at(BamErrorKind::BlockCorrupted, source.position()));
    }
    let crc: u32 = calculate_crc32(&payload);
    match check_trailer(payload.len(), crc, crc_declared, isize_declared) {
        Ok(_) => Ok(payload),
        Err(kind) => Err(BamHandleError::at(kind, source.position())),
    }
}

/// Reads the block that starts at the cursor. The twelve fixed bytes must
/// hold the gzip identification with the extra-field flag; the extra field
/// must open with the `BC` subfield of two bytes, which gives the size of
/// the block. The payload is inflated, must hold no more than `MAX_PAYLOAD`
/// bytes, and is held against the checksum and the size in the trailer.
pub fn read_next_block(source: &mut ByteSource) -> (returned: Result<Vec<u8>, BamHandleError>)
    requires
        old(source).wf(),
    ensures
        final(source).wf(),
        final(source).data@ == old(source).data@,
        agrees(
            returned,
            final(source).pos as int,
            read_outcome(old(source).data@, old(source).pos as int),
        ),
        returned matches Ok(payload) ==> payload@.len() <= MAX_PAYLOAD,
{
    let ghost data = source.data@;
    let ghost at = source.pos as int;
    let fixed = match source.read_exact(12) {
        Some(bytes) => bytes,
        None => {
            return Err(BamHandleError::at(BamErrorKind::BufferTerminated, source.position()));
        },
    };
    if fixed[0] != 31 || fixed[1] != 139 || fixed[2] != 8 || fixed[3] != 4 {
        return Err(BamHandleError::at(BamErrorKind::BlockCorrupted, source.position()));
    }
    let xlen: u16 = u16_at(&fixed, 10);
    proof {
        assert(fixed@.subrange(10, 12) =~= data.subrange(at + 10, at + 12));
    }
    let extra = match source.read_exact(xlen as usize) {
        Some(bytes) => bytes,
        None => {
            return Err(BamHandleError::at(BamErrorKind::BufferTerminated, source.position()));
        },
    };
    if xlen < 6 {
        return Err(BamHandleError::at(BamErrorKind::BlockCorrupted, source.position()));
    }
    let slen: u16 = u16_at(&extra, 2);
    let bsize: u16 = u16_at(&extra, 4);
    proof {
        assert(extra@.subrange(2, 4) =~= data.subrange(at + 14, at + 16));
        assert(extra@.subrange(4, 6) =~= data.subrange(at + 16, at + 18));
        assert(extra@[0] == data[at + 12]);
        assert(extra@[1] == data[at + 13]);
    }
    if extra[0] != 66 || extra[1] != 67 || slen != 2 || (bsize as u32) < xlen as u32 + 19 {
        return Err(BamHandleError::at(BamErrorKind::BlockCorrupted, source.position()));
    }
    read_block_body(source, (bsize - xlen - 19) as usize)
}

/// Whether a window of 18 bytes looks like the start of a block.
pub fn window_is_plausible(window: &Vec<u8>) -> (plausible: bool)
    requires
        window@.len() == 18,
    ensures
        plausible == plausible_header(window@, 0),
{
    if window[0] != 31 || window[1] != 139 || window[2] != 8 || window[3] != 4 {
        return false;
    }
    if window[12] != 66 || window[13] != 67 {
        return false;
    }
    let xlen: u16 = u16_at(window, 10);
    let bsize: u16 = u16_at(window, 16);
    xlen >= 6 && bsize as u32 > xlen as u32 + 19
}

/// By how many bytes a window that is no header moves on: to the next byte
/// 31 in it after the first, or by the whole window where there is none.
pub fn shift_distance(window: &Vec<u8>) -> (shift: usize)
    requires
        window@.len() == 18,
    ensures
        1 <= shift <= 18,
        forall|j: int| 1 <= j < shift ==> window@[j] != 31,
        shift < 18 ==> window@[shift as int] == 31,
{
    let mut i: usize = 1;
    while i < 18
        invariant
            1 <= i <= 18,
            window@.len() == 18,
            forall|j: int| 1 <= j < i ==> window@[j] != 31,
        decreases 18 - i,
    {
        if window[i] == 31 {
            return i;
        }
        i = i + 1;
    }
    18
}

/// The window moved on by `shift` bytes: what is left of it, then `fresh`.
fn shift_window(window: &Vec<u8>, shift: usize, fresh: &Vec<u8>) -> (moved: Vec<u8>)
    requires
        window@.len() == 18,
        1 <= shift <= 18,
        fresh@.len() == shift,
    ensures
        moved@ == window@.subrange(shift as int, 18) + fresh@,
{
    let mut moved: Vec<u8> = Vec::with_capacity(18);
    let mut i: usize = shift;
    while i < 18
        invariant
            shift <= i <= 18,
            window@.len() == 18,
            moved@ == window@.subrange(shift as int, i as int),
        decreases 18 - i,
    {
        moved.push(window[i]);
        i = i + 1;
    }
    let mut j: usize = 0;
    while j < shift
        invariant
            j <= shift,
            fresh@.len() == shift,
            window@.len() == 18,
            moved@ == window@.subrange(shift as int, 18) + fresh@.subrange(0, j as int),
        decreases shift - j,
    {
        moved.push(fresh[j]);
        j = j + 1;
    }
    assert(fresh@.subrange(0, shift as int) =~= fresh@);
    moved
}

proof fn lemma_window_shows_header(data: Seq<u8>, at: int)
    requires
        0 <= at,
        at + 18 <= data.len(),
    ensures
        plausible_header(data.subrange(at, at + 18), 0) == plausible_header(data, at),
        xlen_at(data.subrange(at, at + 18), 0) == xlen_at(data, at),
        bsize_at(data.subrange(at, at + 18), 0) == bsize_at(data, at),
{
    let window = data.subrange(at, at + 18);
    assert(window.subrange(10, 12) =~= data.subrange(at + 10, at + 12));
    assert(window.subrange(16, 18) =~= data.subrange(at + 16, at + 18));
}

/// Searches forward from the cursor for the next plausible block header and
/// reads the block that starts there. A window of 18 bytes is held against
/// the header's shape; a window that is no header moves on by
/// `shift_distance`, and the bytes that it lacks are read from the source.
pub fn scan_next_block(source: &mut ByteSource) -> (returned: Result<Vec<u8>, BamHandleError>)
    requires
        old(source).wf(),
    ensures
        final(source).wf(),
        final(source).data@ == old(source).data@,
        agrees(
            returned,
            final(source).pos as int,
            scan_outcome(old(source).data@, old(source).pos as int),
        ),
        returned matches Ok(payload) ==> payload@.len() <= MAX_PAYLOAD,
{
    let ghost data = source.data@;
    let ghost from = source.pos as int;
    let mut window = match source.read_exact(18) {
        Some(bytes) => bytes,
        None => {
            return Err(BamHandleError::at(BamErrorKind::BufferTerminated, source.position()));
        },
    };
    loop
        invariant
            source.wf(),
            data == old(source).data@,
            from == old(source).pos,
            source.data@ == data,
            window@.len() == 18,
            0 <= from <= source.pos - 18,
            window@ == data.subrange(source.pos - 18, source.pos as int),
            first_header(data, from) == first_header(data, source.pos - 18),
        decreases data.len() - source.pos,
    {
        let ghost at = source.pos - 18;
        proof {
            lemma_window_shows_header(data, at);
        }
        if window_is_plausible(&window) {
            let xlen: u16 = u16_at(&window, 10);
            let bsize: u16 = u16_at(&window, 16);
            match source.read_exact((xlen - 6) as usize) {
                Some(_) => {},
                None => {
                    return Err(
                        BamHandleError::at(BamErrorKind::BufferTerminated, source.position()),
                    );
                },
            }
            return read_block_body(source, (bsize - xlen - 19) as usize);
        }
        let shift: usize = shift_distance(&window);
        proof {
            assert forall|j: int| at <= j < at + shift implies !plausible_header(data, j) by {
                if j > at {
                    assert(data[j] == window@[j - at]);
                }
            }
            lemma_skip_implausible(data, at, at + shift);
        }
        match source.read_exact(shift) {
            Some(fresh) => {
                window = shift_window(&window, shift, &fresh);
                assert(window@ =~= data.subrange(source.pos - 18, source.pos as int));
            },
            None => {
                return Err(BamHandleError::at(BamErrorKind::BufferTerminated, source.position()));
            },
        }
    }
}

} // verus!
