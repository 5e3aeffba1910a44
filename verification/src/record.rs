use crate::error::Error;
use crate::fixed_point::{decode_value, decoded};
use crate::lines::{find_byte, lemma_prefix_len, prefix_len};
use crate::tally::Observation;
use vstd::prelude::*;

verus! {

/// The byte `;`, which stands between the key and the value of a record.
pub const SEMICOLON: u8 = 59;

/// What a line says: the key is what stands before the first `;`, and what
/// follows that `;` decodes to the value. A line without `;` is malformed,
/// and so is one whose value is.
pub open spec fn parsed(line: Seq<u8>) -> Result<Observation, Error> {
    let n = prefix_len(line, SEMICOLON) as int;
    if n < line.len() {
        match decoded(line.skip(n + 1)) {
            Ok(value) => Ok((line.take(n), value)),
            Err(e) => Err(e),
        }
    } else {
        Err(Error::MalformedRecord)
    }
}

/// The observation that a parsed record stands for.
pub open spec fn record_view(r: Result<(&[u8], i16), Error>) -> Result<Observation, Error> {
    match r {
        Ok((key, value)) => Ok((key@, value)),
        Err(e) => Err(e),
    }
}

/// A line without `;` is malformed.
pub proof fn lemma_no_delimiter_is_malformed(line: Seq<u8>)
    requires
        forall|i: int| 0 <= i < line.len() ==> line[i] != SEMICOLON,
    ensures
        parsed(line) == Err::<Observation, Error>(Error::MalformedRecord),
{
    lemma_prefix_len(line, SEMICOLON);
}

/// Parses one line `key;value`. The key is borrowed from the line.
pub fn parse_record(line: &[u8]) -> (r: Result<(&[u8], i16), Error>)
    ensures
        record_view(r) == parsed(line@),
{
    let at = find_byte(line, 0, SEMICOLON);
    assert(line@.skip(0) =~= line@);
    if at < line.len() {
        let key = &line[0..at];
        let text = &line[at + 1..line.len()];
        match decode_value(text) {
            Ok(value) => Ok((key, value)),
            Err(e) => Err(e),
        }
    } else {
        Err(Error::MalformedRecord)
    }
}

} // verus!
