use crate::error::Error;
use crate::lines::{lines_of, next_line};
use crate::record::{parse_record, parsed};
use crate::reducer::mean_of;
use crate::report::{is_report, render, rendered, report_of, ReportRow};
use crate::stats::{lemma_mean_between, lemma_summarize_is_exact};
use crate::table::Table;
use crate::tally::{
    lemma_tally_entries, lemma_tally_is_per_key, lemma_tally_order_insensitive, lemma_tally_push,
    tally, values_of, Observation, Tally,
};
use vstd::prelude::*;

verus! {

/// The observations that lines hold, in the order of the lines. One line
/// that is malformed makes the whole malformed.
pub open spec fn records_of(lines: Seq<Seq<u8>>) -> Result<Seq<Observation>, Error>
    decreases lines.len(),
{
    if lines.len() == 0 {
        Ok(Seq::empty())
    } else {
        match parsed(lines.first()) {
            Ok(record) => match records_of(lines.drop_first()) {
                Ok(rest) => Ok(seq![record] + rest),
                Err(e) => Err(e),
            },
            Err(e) => Err(e),
        }
    }
}

/// The table that the lines of an input leave.
pub open spec fn aggregated(input: Seq<u8>) -> Result<Tally, Error> {
    match records_of(lines_of(input)) {
        Ok(records) => Ok(tally(records)),
        Err(e) => Err(e),
    }
}

/// The text that a run over an input puts out: the report of the table that
/// its lines leave. It depends on the input alone.
pub open spec fn output_of(input: Seq<u8>) -> Result<Seq<u8>, Error> {
    match aggregated(input) {
        Ok(t) => Ok(rendered(report_of(t))),
        Err(e) => Err(e),
    }
}

/// Lines yield observations if and only if every one of them parses, and
/// then the observations are what the lines parse to, one for one. If they
/// yield none, some line is a malformed record.
pub proof fn lemma_records_of_lines(lines: Seq<Seq<u8>>)
    ensures
        records_of(lines) is Ok <==> forall|i: int|
            0 <= i < lines.len() ==> parsed(#[trigger] lines[i]) is Ok,
        records_of(lines) matches Ok(records) ==> records.len() == lines.len() && forall|i: int|
            0 <= i < lines.len() ==> parsed(#[trigger] lines[i]) == Ok::<Observation, Error>(
                records[i],
            ),
        records_of(lines) matches Err(e) ==> e == Error::MalformedRecord,
    decreases lines.len(),
{
    if lines.len() > 0 {
        let rest = lines.drop_first();
        lemma_records_of_lines(rest);
        assert forall|i: int| 0 < i < lines.len() implies #[trigger] lines[i] == rest[i - 1] by {}
    }
}

/// One malformed line fails the run, wherever it stands: nothing is put
/// out.
pub proof fn lemma_malformed_line_fails_run(input: Seq<u8>, i: int)
    requires
        0 <= i < lines_of(input).len(),
        parsed(lines_of(input)[i]) is Err,
    ensures
        output_of(input) == Err::<Seq<u8>, Error>(Error::MalformedRecord),
{
    lemma_records_of_lines(lines_of(input));
}

/// The observations that were seen, followed by those that are to come.
spec fn continued(seen: Seq<Observation>, rest: Result<Seq<Observation>, Error>) -> Result<
    Seq<Observation>,
    Error,
> {
    match rest {
        Ok(more) => Ok(seen + more),
        Err(e) => Err(e),
    }
}

/// The observations that follow a first one.
spec fn preceded(first: Observation, rest: Result<Seq<Observation>, Error>) -> Result<
    Seq<Observation>,
    Error,
> {
    match rest {
        Ok(more) => Ok(seq![first] + more),
        Err(e) => Err(e),
    }
}

/// Seeing the next observation moves it from those to come to those seen.
proof fn lemma_continued_step(
    seen: Seq<Observation>,
    next: Observation,
    rest: Result<Seq<Observation>, Error>,
)
    ensures
        continued(seen, preceded(next, rest)) == continued(seen.push(next), rest),
{
    if let Ok(more) = rest {
        assert(seen + (seq![next] + more) =~= seen.push(next) + more);
    }
}

/// The report does not depend on the order of the observations: two runs
/// that hold the same observations the same number of times are reported
/// alike, byte for byte.
pub proof fn lemma_report_ignores_order(a: Seq<Observation>, b: Seq<Observation>)
    requires
        a.to_multiset() == b.to_multiset(),
    ensures
        rendered(report_of(tally(a))) == rendered(report_of(tally(b))),
{
    lemma_tally_order_insensitive(a, b);
}

/// Every row of a report is exact. Its key was observed at least once, and
/// the row holds the least of the values that were observed for the key,
/// their mean rounded toward zero, and the greatest of them; `values` names
/// those values.
pub proof fn lemma_report_row_is_exact(
    observations: Seq<Observation>,
    rows: Seq<ReportRow>,
    i: int,
    values: Seq<i16>,
)
    requires
        is_report(tally(observations), rows),
        0 <= i < rows.len(),
        values == values_of(observations, rows[i].key),
    ensures
        values.len() > 0,
        rows[i].mean == mean_of(values),
        rows[i].min <= rows[i].mean <= rows[i].max,
        forall|j: int| 0 <= j < values.len() ==> rows[i].min <= #[trigger] values[j] <= rows[i].max,
        exists|j: int| 0 <= j < values.len() && #[trigger] values[j] == rows[i].min,
        exists|j: int| 0 <= j < values.len() && #[trigger] values[j] == rows[i].max,
{
    let key = rows[i].key;
    lemma_tally_is_per_key(observations, key);
    lemma_summarize_is_exact(values);
    lemma_mean_between(tally(observations)[key]);
}

/// The pass over the input: every line is parsed and its value observed for
/// its key. The first malformed line ends the pass with its error.
pub fn aggregate(input: &[u8]) -> (r: Result<Table, Error>)
    ensures
        r matches Ok(table) ==> table.wf() && aggregated(input@) == Ok::<Tally, Error>(table@),
        r matches Err(e) ==> aggregated(input@) == Err::<Tally, Error>(e),
{
    let mut table = Table::new();
    let mut pos: usize = 0;
    let ghost mut seen: Seq<Observation> = Seq::empty();
    assert(input@.skip(0) =~= input@);
    while pos < input.len()
        invariant
            pos <= input.len(),
            table.wf(),
            table@ == tally(seen),
            seen.len() <= pos,
            records_of(lines_of(input@)) == continued(
                seen,
                records_of(lines_of(input@.skip(pos as int))),
            ),
        decreases input.len() - pos,
    {
        let (end, next) = next_line(input, pos);
        let line = &input[pos..end];
        let ghost lines = lines_of(input@.skip(pos as int));
        let ghost rest = records_of(lines_of(input@.skip(next as int)));
        assert(lines.drop_first() =~= lines_of(input@.skip(next as int)));
        match parse_record(line) {
            Ok((key, value)) => {
                proof {
                    lemma_continued_step(seen, (key@, value), rest);
                    lemma_tally_push(seen, (key@, value));
                    if table@.contains_key(key@) {
                        lemma_tally_entries(seen, key@);
                    }
                }
                table.observe(key, value);
                proof {
                    seen = seen.push((key@, value));
                }
            },
            Err(e) => {
                return Err(e);
            },
        }
        pos = next;
    }
    Ok(table)
}

/// The whole run: the lines of the input are aggregated, and the table is
/// reported as text, one line `key;min;mean;max` for each key, the keys
/// ascending byte by byte. A malformed line fails the run, and nothing is
/// put out.
///
/// The output is a function of the input: two runs over one input put out
/// the same bytes.
pub fn run(input: &[u8]) -> (r: Result<Vec<u8>, Error>)
    ensures
        r matches Ok(out) ==> output_of(input@) == Ok::<Seq<u8>, Error>(out@),
        r matches Err(e) ==> output_of(input@) == Err::<Seq<u8>, Error>(e),
{
    match aggregate(input) {
        Ok(table) => {
            let rows = table.drain();
            Ok(render(rows.as_slice()))
        },
        Err(e) => Err(e),
    }
}

} // verus!
