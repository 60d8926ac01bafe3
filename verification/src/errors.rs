use vstd::prelude::*;

verus! {

/// The error kinds surfaced by the discord search engine.
#[derive(Clone, Copy, Debug, PartialEq, Eq, Structural)]
pub enum HotSaxError {
    /// A search parameter is outside its documented range.
    InvalidParameter,
    /// A window with zero standard deviation cannot be z-normalised.
    DegenerateInput,
    /// A word queried against the trie was absent or of the wrong length.
    LookupMiscompare,
    /// A requested sub-range exceeds the series bounds.
    OutOfRange,
}

/// Checks the parameter contract of a search before any work is done:
/// the series is non-empty, the window fits in it, the word fits in the
/// window, and the alphabet size is one of the supported ones.
pub fn check_params(
    data_len: usize,
    discord_size: usize,
    sax_word_length: usize,
    alpha: usize,
) -> (r: Result<(), HotSaxError>)
    ensures
        r is Ok <==> (1 <= discord_size <= data_len && 1 <= sax_word_length <= discord_size
            && 3 <= alpha <= 7),
        r matches Err(e) ==> e == HotSaxError::InvalidParameter,
{
    if data_len == 0 || discord_size == 0 || discord_size > data_len {
        Err(HotSaxError::InvalidParameter)
    } else if sax_word_length == 0 || sax_word_length > discord_size {
        Err(HotSaxError::InvalidParameter)
    } else if alpha < 3 || alpha > 7 {
        Err(HotSaxError::InvalidParameter)
    } else {
        Ok(())
    }
}

/// Checks a requested sub-range `[lo, hi)` against the series bounds,
/// before any search work is done.
pub fn check_range(lo: usize, hi: usize, data_len: usize) -> (r: Result<(), HotSaxError>)
    ensures
        r is Ok <==> (lo <= hi <= data_len),
        r matches Err(e) ==> e == HotSaxError::OutOfRange,
{
    if lo > hi || hi > data_len {
        Err(HotSaxError::OutOfRange)
    } else {
        Ok(())
    }
}

} // verus!
