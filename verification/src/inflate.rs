use vstd::prelude::*;

verus! {

/// `flate2::DecompressError`: the error of `flate2` for input that is no
/// valid deflate stream. Nothing is known of what it holds.
#[verifier::external_type_specification]
#[verifier::external_body]
pub struct ExDecompressError(flate2::DecompressError);

/// How one attempt to inflate a raw deflate stream into a buffer of a given
/// size ends.
pub enum Inflated {
    /// The stream ended; these are all the bytes it holds.
    Complete(Seq<u8>),
    /// The stream did not end within the buffer, or within the input.
    Unfinished,
    /// The input is no deflate stream.
    Invalid,
}

/// How `flate2` ends when a fresh raw-deflate decompressor is asked to finish
/// `input` in one call, into an output buffer of `capacity` bytes.
pub uninterp spec fn raw_inflate(input: Seq<u8>, capacity: int) -> Inflated;

/// `flate2::Decompress::decompress`, called once with
/// `FlushDecompress::Finish` on a decompressor that `Decompress::new(false)`
/// has just made, with an output buffer of `capacity` zero bytes; the buffer
/// is then cut to `Decompress::total_out`. The contract names the outcome
/// `raw_inflate(input, capacity)`: `Ok(Some(..))` with the bytes written
/// where the status is `StreamEnd`, `Ok(None)` for the two other statuses,
/// and the error of `flate2` as it comes.
#[verifier::external_body]
fn inflate_once(input: &Vec<u8>, capacity: usize) -> (outcome: Result<
    Option<Vec<u8>>,
    flate2::DecompressError,
>)
    ensures
        match outcome {
            Ok(Some(out)) => raw_inflate(input@, capacity as int) == Inflated::Complete(out@),
            Ok(None) => raw_inflate(input@, capacity as int) == Inflated::Unfinished,
            Err(_) => raw_inflate(input@, capacity as int) == Inflated::Invalid,
        },
{
    let mut inflater = flate2::Decompress::new(false);
    let mut out = vec![0u8; capacity];
    let status = inflater.decompress(input, &mut out, flate2::FlushDecompress::Finish);
    out.truncate(inflater.total_out() as usize);
    match status {
        Ok(flate2::Status::StreamEnd) => Ok(Some(out)),
        Ok(flate2::Status::Ok) => Ok(None),
        Ok(flate2::Status::BufError) => Ok(None),
        Err(e) => Err(e),
    }
}

/// Why a deflate stream could not be inflated.
#[derive(Clone, Copy, Debug, PartialEq, Eq, Structural)]
pub enum InflateError {
    /// The input is no deflate stream.
    Invalid,
    /// The stream does not end within the largest buffer that is tried.
    TooLarge,
}

/// The cap on inflating, twice the largest payload of a block: no stream
/// that holds more bytes is accepted, and no buffer is doubled beyond it.
pub const MAX_CAPACITY: usize = 131070;

/// The size of the first output buffer for an input of `input_len` bytes.
pub open spec fn first_capacity(input_len: int) -> int {
    if input_len < 256 {
        1024
    } else {
        4 * input_len
    }
}

/// What follows an attempt that ended as `attempt` with a buffer of
/// `capacity` bytes, with `None` for another attempt with twice the buffer.
/// A stream that ended is accepted unless it holds more than `MAX_CAPACITY`
/// bytes; one that did not end is tried again unless twice the buffer would
/// pass `MAX_CAPACITY`.
pub open spec fn attempt_verdict(attempt: Inflated, capacity: int) -> Option<
    Result<Seq<u8>, InflateError>,
> {
    match attempt {
        Inflated::Complete(out) => if out.len() > MAX_CAPACITY {
            Some(Err(InflateError::TooLarge))
        } else {
            Some(Ok(out))
        },
        Inflated::Invalid => Some(Err(InflateError::Invalid)),
        Inflated::Unfinished => if capacity <= 0 || 2 * capacity > MAX_CAPACITY {
            Some(Err(InflateError::TooLarge))
        } else {
            None
        },
    }
}

/// What inflating `input` gives when the first buffer has `capacity` bytes
/// and each further attempt doubles it.
pub open spec fn inflate_from(input: Seq<u8>, capacity: int) -> Result<Seq<u8>, InflateError>
    decreases MAX_CAPACITY - capacity,
{
    match attempt_verdict(raw_inflate(input, capacity), capacity) {
        Some(verdict) => verdict,
        None => inflate_from(input, 2 * capacity),
    }
}

/// What inflating the raw deflate stream `input` gives.
pub open spec fn inflate(input: Seq<u8>) -> Result<Seq<u8>, InflateError> {
    inflate_from(input, first_capacity(input.len() as int))
}

/// The outcome of one attempt, as the library holds it.
#[derive(Debug)]
pub enum Attempt {
    /// The stream ended; these are all the bytes it holds.
    Complete(Vec<u8>),
    /// The stream did not end within the buffer, or within the input.
    Unfinished,
    /// The input is no deflate stream.
    Invalid,
}

impl View for Attempt {
    type V = Inflated;

    open spec fn view(&self) -> Inflated {
        match self {
            Attempt::Complete(out) => Inflated::Complete(out@),
            Attempt::Unfinished => Inflated::Unfinished,
            Attempt::Invalid => Inflated::Invalid,
        }
    }
}

/// What follows one attempt: the result, or the size of the buffer to try
/// next.
#[derive(Debug)]
pub enum NextAttempt {
    Done(Result<Vec<u8>, InflateError>),
    Retry(usize),
}

/// Decides from the outcome of one attempt whether inflating is over.
pub fn after_attempt(attempt: Attempt, capacity: usize) -> (next: NextAttempt)
    ensures
        match next {
            NextAttempt::Done(Ok(out)) => attempt_verdict(attempt@, capacity as int) == Some(
                Ok::<Seq<u8>, InflateError>(out@),
            ),
            NextAttempt::Done(Err(e)) => attempt_verdict(attempt@, capacity as int) == Some(
                Err::<Seq<u8>, InflateError>(e),
            ),
            NextAttempt::Retry(larger) => attempt_verdict(attempt@, capacity as int) is None
                && larger == 2 * capacity,
        },
{
    match attempt {
        Attempt::Complete(out) => {
            if out.len() > MAX_CAPACITY {
                NextAttempt::Done(Err(InflateError::TooLarge))
            } else {
                NextAttempt::Done(Ok(out))
            }
        },
        Attempt::Unfinished => {
            if capacity == 0 || capacity > MAX_CAPACITY / 2 {
                NextAttempt::Done(Err(InflateError::TooLarge))
            } else {
                NextAttempt::Retry(2 * capacity)
            }
        },
        Attempt::Invalid => NextAttempt::Done(Err(InflateError::Invalid)),
    }
}

/// Whatever is inflated holds at most `MAX_CAPACITY` bytes, whatever the
/// size of the first buffer.
pub proof fn lemma_inflate_from_is_capped(input: Seq<u8>, capacity: int)
    ensures
        inflate_from(input, capacity) matches Ok(out) ==> out.len() <= MAX_CAPACITY,
    decreases MAX_CAPACITY - capacity,
{
    if attempt_verdict(raw_inflate(input, capacity), capacity) is None {
        lemma_inflate_from_is_capped(input, 2 * capacity);
    }
}

/// Whatever is inflated holds at most `MAX_CAPACITY` bytes.
pub proof fn lemma_inflated_is_capped(input: Seq<u8>)
    ensures
        inflate(input) matches Ok(out) ==> out.len() <= MAX_CAPACITY,
{
    lemma_inflate_from_is_capped(input, first_capacity(input.len() as int));
}

/// Inflates a raw deflate stream (no zlib or gzip wrapper). The first output
/// buffer has `first_capacity` bytes; while the stream does not end within
/// the buffer, the attempt is made again with a buffer twice as large, until
/// that would pass `MAX_CAPACITY`. A stream that holds more than
/// `MAX_CAPACITY` bytes is refused, whatever the buffer it ended in.
pub fn decompress_without_header(input: Vec<u8>) -> (result: Result<Vec<u8>, InflateError>)
    requires
        4 * input@.len() <= usize::MAX,
    ensures
        match result {
            Ok(out) => inflate(input@) == Ok::<Seq<u8>, InflateError>(out@) && out@.len()
                <= MAX_CAPACITY,
            Err(e) => inflate(input@) == Err::<Seq<u8>, InflateError>(e),
        },
{
    let mut capacity: usize = if input.len() < 256 {
        1024
    } else {
        input.len() * 4
    };
    loop
        invariant
            capacity > 0,
            inflate(input@) == inflate_from(input@, capacity as int),
        decreases MAX_CAPACITY - capacity,
    {
        let attempt = match inflate_once(&input, capacity) {
            Ok(Some(out)) => Attempt::Complete(out),
            Ok(None) => Attempt::Unfinished,
            Err(_) => Attempt::Invalid,
        };
        match after_attempt(attempt, capacity) {
            NextAttempt::Done(result) => {
                return result;
            },
            NextAttempt::Retry(next) => {
                capacity = next;
            },
        }
    }
}

} // verus!
