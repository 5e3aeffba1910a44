use crate::fixed_point::{num_text, push_num};
use crate::keys::{
    key_lt, lemma_key_lt_asymmetric, lemma_key_lt_irreflexive, lemma_key_lt_total,
    lemma_key_lt_transitive,
};
use crate::lines::NEWLINE;
use crate::record::SEMICOLON;
use crate::stats::Summary;
use crate::tally::{observed, tally, Observation, Tally};
use vstd::prelude::*;

verus! {

/// One line of the report in unbounded integers: a key with the least
/// value, the mean and the greatest value that were observed for it.
pub struct ReportRow {
    pub key: Seq<u8>,
    pub min: int,
    pub mean: int,
    pub max: int,
}

/// One line of the report.
#[derive(Debug, Clone, PartialEq, Eq)]
pub struct Row {
    pub key: Vec<u8>,
    pub min: i16,
    pub mean: i16,
    pub max: i16,
}

impl View for Row {
    type V = ReportRow;

    open spec fn view(&self) -> ReportRow {
        ReportRow {
            key: self.key@,
            min: self.min as int,
            mean: self.mean as int,
            max: self.max as int,
        }
    }
}

/// The rows that a vector of rows stands for.
pub open spec fn report_view(rows: Seq<Row>) -> Seq<ReportRow> {
    rows.map_values(|row: Row| row@)
}

/// The row that reports a key with its statistic: the mean is the sum by
/// the count, rounded toward zero.
pub open spec fn row_of(key: Seq<u8>, s: Summary) -> ReportRow {
    ReportRow { key, min: s.min, mean: s.mean(), max: s.max }
}

/// Whether `rows` is the report of a table: one row for each key of the
/// table and none besides, each with what the table holds for its key, and
/// the keys ascending byte by byte.
pub open spec fn is_report(t: Tally, rows: Seq<ReportRow>) -> bool {
    &&& forall|i: int, j: int|
        0 <= i < j < rows.len() ==> key_lt(#[trigger] rows[i].key, #[trigger] rows[j].key)
    &&& forall|i: int|
        0 <= i < rows.len() ==> t.contains_key(#[trigger] rows[i].key) && rows[i] == row_of(
            rows[i].key,
            t[rows[i].key],
        )
    &&& forall|k: Seq<u8>|
        t.contains_key(k) ==> exists|i: int| 0 <= i < rows.len() && #[trigger] rows[i].key == k
}

/// The report of a table: the one sequence of rows that is a report of it.
/// There is one for every table that observations leave, and no table has
/// two.
pub open spec fn report_of(t: Tally) -> Seq<ReportRow> {
    choose|rows: Seq<ReportRow>| is_report(t, rows)
}

/// The text of one row: `key;min;mean;max` and the end of the line.
pub open spec fn row_text(row: ReportRow) -> Seq<u8> {
    row.key + seq![SEMICOLON] + num_text(row.min) + seq![SEMICOLON] + num_text(row.mean)
        + seq![SEMICOLON] + num_text(row.max) + seq![NEWLINE]
}

/// The text of a report: the texts of its rows, one after the other.
pub open spec fn rendered(rows: Seq<ReportRow>) -> Seq<u8>
    decreases rows.len(),
{
    if rows.len() == 0 {
        Seq::empty()
    } else {
        rendered(rows.drop_last()) + row_text(rows.last())
    }
}

/// In a report the last row has the greatest key of the table, so two
/// reports of one table end with the same key.
proof fn lemma_reports_end_alike(t: Tally, a: Seq<ReportRow>, b: Seq<ReportRow>)
    requires
        is_report(t, a),
        is_report(t, b),
        a.len() > 0,
    ensures
        b.len() > 0,
        a.last().key == b.last().key,
{
    let ka = a[a.len() - 1].key;
    let j = choose|j: int| 0 <= j < b.len() && #[trigger] b[j].key == ka;
    if j < b.len() - 1 {
        let kb = b[b.len() - 1].key;
        let i = choose|i: int| 0 <= i < a.len() && #[trigger] a[i].key == kb;
        if i < a.len() - 1 {
            lemma_key_lt_asymmetric(ka, kb);
        } else {
            lemma_key_lt_irreflexive(ka);
        }
    }
}

/// A report without its last row is the report of the table without the
/// key of that row.
proof fn lemma_report_without_last(t: Tally, rows: Seq<ReportRow>)
    requires
        is_report(t, rows),
        rows.len() > 0,
    ensures
        is_report(t.remove(rows.last().key), rows.drop_last()),
{
    let last = rows[rows.len() - 1].key;
    let fewer = rows.drop_last();
    let smaller = t.remove(last);
    assert forall|i: int| 0 <= i < fewer.len() implies smaller.contains_key(
        #[trigger] fewer[i].key,
    ) && fewer[i] == row_of(fewer[i].key, smaller[fewer[i].key]) by {
        lemma_key_lt_irreflexive(last);
    }
    assert forall|k: Seq<u8>| smaller.contains_key(k) implies exists|i: int|
        0 <= i < fewer.len() && #[trigger] fewer[i].key == k by {
        let i = choose|i: int| 0 <= i < rows.len() && #[trigger] rows[i].key == k;
        assert(fewer[i].key == k);
    }
}

/// A table has one report only: whatever order its keys were met in, the
/// rows and their order are the same.
pub proof fn lemma_report_unique(t: Tally, a: Seq<ReportRow>, b: Seq<ReportRow>)
    requires
        is_report(t, a),
        is_report(t, b),
    ensures
        a == b,
    decreases a.len(),
{
    if a.len() == 0 {
        if b.len() > 0 {
            assert(t.contains_key(b[0].key));
        }
    } else {
        lemma_reports_end_alike(t, a, b);
        lemma_report_without_last(t, a);
        lemma_report_without_last(t, b);
        lemma_report_unique(t.remove(a.last().key), a.drop_last(), b.drop_last());
        assert(b =~= b.drop_last().push(b.last()));
    }
}

/// Whatever is a report of a table is the report of it.
pub proof fn lemma_report_is_report_of(t: Tally, rows: Seq<ReportRow>)
    requires
        is_report(t, rows),
    ensures
        rows == report_of(t),
{
    lemma_report_unique(t, rows, report_of(t));
}

/// How many rows of a report have a key before `key`.
spec fn rank(rows: Seq<ReportRow>, key: Seq<u8>) -> int
    decreases rows.len(),
{
    if rows.len() == 0 {
        0
    } else if key_lt(rows.last().key, key) {
        rows.len() as int
    } else {
        rank(rows.drop_last(), key)
    }
}

/// In a report the rows with a key before `key` come first.
proof fn lemma_rank(t: Tally, rows: Seq<ReportRow>, key: Seq<u8>)
    requires
        is_report(t, rows),
    ensures
        0 <= rank(rows, key) <= rows.len(),
        forall|i: int| 0 <= i < rank(rows, key) ==> key_lt((#[trigger] rows[i]).key, key),
        forall|i: int|
            rank(rows, key) <= i < rows.len() ==> !key_lt((#[trigger] rows[i]).key, key),
    decreases rows.len(),
{
    if rows.len() > 0 {
        let last = rows[rows.len() - 1];
        if key_lt(last.key, key) {
            assert forall|i: int| 0 <= i < rows.len() implies key_lt(
                (#[trigger] rows[i]).key,
                key,
            ) by {
                if i < rows.len() - 1 {
                    lemma_key_lt_transitive(rows[i].key, last.key, key);
                }
            }
        } else {
            lemma_report_without_last(t, rows);
            lemma_rank(t.remove(last.key), rows.drop_last(), key);
            assert forall|i: int| rank(rows, key) <= i < rows.len() implies !key_lt(
                (#[trigger] rows[i]).key,
                key,
            ) by {
                if i < rows.len() - 1 {
                    assert(rows[i] == rows.drop_last()[i]);
                }
            }
            assert forall|i: int| 0 <= i < rank(rows, key) implies key_lt(
                (#[trigger] rows[i]).key,
                key,
            ) by {
                assert(rows[i] == rows.drop_last()[i]);
            }
        }
    }
}

/// A table that has a report has one after one more observation too: the
/// row of the key is renewed where it stands, or it goes in where the keys
/// before it end.
proof fn lemma_report_after_observation(
    t: Tally,
    rows: Seq<ReportRow>,
    key: Seq<u8>,
    value: i16,
) -> (after: Seq<ReportRow>)
    requires
        is_report(t, rows),
    ensures
        is_report(observed(t, key, value), after),
{
    let next = observed(t, key, value);
    let row = row_of(key, next[key]);
    if t.contains_key(key) {
        let at = choose|i: int| 0 <= i < rows.len() && (#[trigger] rows[i]).key == key;
        let after = rows.update(at, row);
        lemma_key_lt_irreflexive(key);
        assert forall|k: Seq<u8>| next.contains_key(k) implies exists|i: int|
            0 <= i < after.len() && (#[trigger] after[i]).key == k by {
            let i = choose|i: int| 0 <= i < rows.len() && (#[trigger] rows[i]).key == k;
            assert(after[i].key == k);
        }
        after
    } else {
        let at = rank(rows, key);
        lemma_rank(t, rows, key);
        let after = rows.insert(at, row);
        assert forall|i: int| at <= i < rows.len() implies key_lt(
            key,
            (#[trigger] rows[i]).key,
        ) by {
            lemma_key_lt_total(key, rows[i].key);
        }
        assert forall|k: Seq<u8>| next.contains_key(k) implies exists|i: int|
            0 <= i < after.len() && (#[trigger] after[i]).key == k by {
            if k == key {
                assert(after[at].key == k);
            } else {
                let i = choose|i: int| 0 <= i < rows.len() && (#[trigger] rows[i]).key == k;
                let shifted = if i < at {
                    i
                } else {
                    i + 1
                };
                assert(after[shifted] == rows[i]);
            }
        }
        after
    }
}

/// The table that a run of observations leaves has a report, and
/// `report_of` is that report.
pub proof fn lemma_report_exists(observations: Seq<Observation>)
    ensures
        is_report(tally(observations), report_of(tally(observations))),
    decreases observations.len(),
{
    if observations.len() == 0 {
        assert(is_report(tally(observations), Seq::<ReportRow>::empty()));
    } else {
        let before = observations.drop_last();
        let last = observations.last();
        lemma_report_exists(before);
        let after = lemma_report_after_observation(
            tally(before),
            report_of(tally(before)),
            last.0,
            last.1,
        );
    }
}

/// Writes a report as text, one line `key;min;mean;max` for each row, in
/// the order of the rows.
pub fn render(rows: &[Row]) -> (out: Vec<u8>)
    ensures
        out@ == rendered(report_view(rows@)),
{
    let mut out: Vec<u8> = Vec::new();
    let mut i: usize = 0;
    while i < rows.len()
        invariant
            i <= rows.len(),
            out@ == rendered(report_view(rows@.take(i as int))),
        decreases rows.len() - i,
    {
        let row = &rows[i];
        out.extend_from_slice(row.key.as_slice());
        out.push(SEMICOLON);
        push_num(&mut out, row.min);
        out.push(SEMICOLON);
        push_num(&mut out, row.mean);
        out.push(SEMICOLON);
        push_num(&mut out, row.max);
        out.push(NEWLINE);
        proof {
            let longer = report_view(rows@.take(i + 1));
            assert(longer.drop_last() =~= report_view(rows@.take(i as int)));
        }
        i = i + 1;
    }
    assert(rows@.take(i as int) =~= rows@);
    out
}

} // verus!
