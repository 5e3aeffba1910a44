use city_stats::error::Error;
use city_stats::lines::{find_byte, next_line};
use city_stats::pipeline::{aggregate, run};
use city_stats::record::parse_record;

fn run_text(input: &str) -> Result<String, Error> {
    run(input.as_bytes()).map(|out| String::from_utf8(out).unwrap())
}

fn lines_of(input: &[u8]) -> Vec<Vec<u8>> {
    let mut lines = Vec::new();
    let mut from = 0;
    while from < input.len() {
        let (end, next) = next_line(input, from);
        lines.push(input[from..end].to_vec());
        from = next;
    }
    lines
}

#[test]
fn end_to_end() {
    assert_eq!(
        run_text("Foo;12.3\nBar;4.0\nFoo;5.6\n"),
        Ok("Bar;4.0;4.0;4.0\nFoo;5.6;8.9;12.3\n".to_string())
    );
}

#[test]
fn empty_input_gives_empty_output() {
    assert_eq!(run_text(""), Ok(String::new()));
}

#[test]
fn last_line_needs_no_end_of_line() {
    assert_eq!(
        run_text("Foo;12.3\nBar;4.0\nFoo;5.6"),
        Ok("Bar;4.0;4.0;4.0\nFoo;5.6;8.9;12.3\n".to_string())
    );
}

#[test]
fn carriage_return_before_end_of_line_is_dropped() {
    assert_eq!(
        run_text("Foo;12.3\r\nBar;4.0\r\nFoo;5.6\r\n"),
        Ok("Bar;4.0;4.0;4.0\nFoo;5.6;8.9;12.3\n".to_string())
    );
    assert_eq!(run_text("Foo;12.3\r"), Err(Error::MalformedRecord));
    assert_eq!(run_text("Foo;12.3\r\r\n"), Err(Error::MalformedRecord));
}

#[test]
fn malformed_value_fails_the_run() {
    assert_eq!(run_text("Baz;abc"), Err(Error::MalformedRecord));
    assert_eq!(run_text("Foo;12.3\nBaz;abc\nBar;4.0\n"), Err(Error::MalformedRecord));
    assert_eq!(run_text("Foo;12.3\nBar;4.0\nBaz;abc\n"), Err(Error::MalformedRecord));
    assert_eq!(run_text("Foo;1.2.3\n"), Err(Error::MalformedRecord));
    assert_eq!(run_text("Foo;\n"), Err(Error::MalformedRecord));
}

#[test]
fn line_without_delimiter_fails_the_run() {
    assert_eq!(run_text("Baz"), Err(Error::MalformedRecord));
    assert_eq!(run_text("Foo;12.3\nBaz 4.0\n"), Err(Error::MalformedRecord));
    assert_eq!(run_text("12.3\n"), Err(Error::MalformedRecord));
}

#[test]
fn empty_line_fails_the_run() {
    assert_eq!(run_text("\n"), Err(Error::MalformedRecord));
    assert_eq!(run_text("Foo;12.3\n\nBar;4.0\n"), Err(Error::MalformedRecord));
    assert_eq!(run_text("Foo;12.3\n\n"), Err(Error::MalformedRecord));
}

#[test]
fn key_ends_at_the_first_delimiter() {
    assert_eq!(run_text("a;b;1.0\n"), Err(Error::MalformedRecord));
    assert_eq!(run_text(";1.0\n;2.0\n"), Ok(";1.0;1.5;2.0\n".to_string()));
    assert_eq!(parse_record(b"Foo;12.3"), Ok((&b"Foo"[..], 123)));
    assert_eq!(parse_record(b";-0.1"), Ok((&b""[..], -1)));
    assert_eq!(parse_record(b"St. John's;-7.0"), Ok((&b"St. John's"[..], -70)));
    assert_eq!(parse_record(b"Foo"), Err(Error::MalformedRecord));
    assert_eq!(parse_record(b""), Err(Error::MalformedRecord));
    assert_eq!(parse_record(b"Foo;"), Err(Error::MalformedRecord));
    assert_eq!(parse_record(b"Foo;1;2"), Err(Error::MalformedRecord));
}

#[test]
fn output_is_sorted_by_key_not_by_line() {
    assert_eq!(
        run_text("A!;2.0\nA;1.0\nAB;3.0\n"),
        Ok("A;1.0;1.0;1.0\nA!;2.0;2.0;2.0\nAB;3.0;3.0;3.0\n".to_string())
    );
    assert_eq!(
        run_text("b;1.0\na;1.0\nB;1.0\nZürich;1.0\nZz;1.0\n"),
        Ok("B;1.0;1.0;1.0\nZz;1.0;1.0;1.0\nZürich;1.0;1.0;1.0\na;1.0;1.0;1.0\nb;1.0;1.0;1.0\n"
            .to_string())
    );
}

#[test]
fn mean_is_rounded_toward_zero() {
    assert_eq!(run_text("k;0.1\nk;0.2\n"), Ok("k;0.1;0.1;0.2\n".to_string()));
    assert_eq!(run_text("k;-0.1\nk;-0.2\n"), Ok("k;-0.2;-0.1;-0.1\n".to_string()));
    assert_eq!(run_text("k;-0.1\nk;0.0\n"), Ok("k;-0.1;0.0;0.0\n".to_string()));
    assert_eq!(run_text("k;-12.3\nk;-5.6\n"), Ok("k;-12.3;-8.9;-5.6\n".to_string()));
}

#[test]
fn two_runs_put_out_the_same_bytes() {
    let input = b"Oslo;-3.4\nLima;18.9\nOslo;2.1\nCairo;30.0\nLima;19.0\nOslo;-0.3\n";
    let first = run(input);
    let second = run(input);
    assert_eq!(first, second);
    assert_eq!(
        first.map(|out| String::from_utf8(out).unwrap()),
        Ok("Cairo;30.0;30.0;30.0\nLima;18.9;18.9;19.0\nOslo;-3.4;-0.5;2.1\n".to_string())
    );
}

#[test]
fn order_of_lines_does_not_change_the_output() {
    let lines = ["Oslo;-3.4", "Lima;18.9", "Oslo;2.1", "Cairo;30.0", "Lima;19.0", "Oslo;-0.3"];
    let expected = "Cairo;30.0;30.0;30.0\nLima;18.9;18.9;19.0\nOslo;-3.4;-0.5;2.1\n".to_string();
    for shift in 0..lines.len() {
        let mut turned = lines.to_vec();
        turned.rotate_left(shift);
        assert_eq!(run_text(&(turned.join("\n") + "\n")), Ok(expected.clone()));
        turned.reverse();
        assert_eq!(run_text(&turned.join("\n")), Ok(expected.clone()));
    }
}

#[test]
fn aggregate_leaves_one_statistic_for_each_key() {
    let table = aggregate(b"Foo;12.3\nBar;4.0\nFoo;5.6\n").unwrap();
    assert_eq!(table.len(), 2);
    let foo = table.get(b"Foo").unwrap();
    assert_eq!((foo.count(), foo.sum(), foo.min(), foo.max()), (2, 179, 56, 123));
    let bar = table.get(b"Bar").unwrap();
    assert_eq!((bar.count(), bar.sum(), bar.min(), bar.max()), (1, 40, 40, 40));
    assert!(aggregate(b"Foo;12.3\nBar\n").is_err());
}

#[test]
fn many_observations_for_one_key_do_not_overflow() {
    let mut input = Vec::new();
    for _ in 0..70_000 {
        input.extend_from_slice(b"Hot;3276.7\nCold;-3276.8\n");
    }
    assert_eq!(
        run(&input).map(|out| String::from_utf8(out).unwrap()),
        Ok("Cold;-3276.8;-3276.8;-3276.8\nHot;3276.7;3276.7;3276.7\n".to_string())
    );
    let table = aggregate(&input).unwrap();
    assert_eq!(table.get(b"Hot").unwrap().sum(), 2_293_690_000);
    assert_eq!(table.get(b"Cold").unwrap().sum(), -2_293_760_000);
}

#[test]
fn lines_are_split_at_every_end_of_line() {
    assert_eq!(lines_of(b""), Vec::<Vec<u8>>::new());
    assert_eq!(lines_of(b"a"), vec![b"a".to_vec()]);
    assert_eq!(lines_of(b"a\n"), vec![b"a".to_vec()]);
    assert_eq!(lines_of(b"a\nb"), vec![b"a".to_vec(), b"b".to_vec()]);
    assert_eq!(lines_of(b"a\n\nb\n"), vec![b"a".to_vec(), b"".to_vec(), b"b".to_vec()]);
    assert_eq!(lines_of(b"\n"), vec![b"".to_vec()]);
    assert_eq!(lines_of(b"a\r\nb\r\n"), vec![b"a".to_vec(), b"b".to_vec()]);
    assert_eq!(lines_of(b"a\r"), vec![b"a\r".to_vec()]);
    assert_eq!(lines_of(b"\r\n"), vec![b"".to_vec()]);
    assert_eq!(lines_of(b"a\rb\n"), vec![b"a\rb".to_vec()]);
    assert_eq!(lines_of(b"a\r\r\n"), vec![b"a\r".to_vec()]);
}

#[test]
fn lines_agree_with_the_lines_of_a_str() {
    for text in ["", "x", "x\n", "x\ny", "x\r\ny\r\n", "\n\n", "a;1.0\r\n\r\nb;2.0", "tail\r"] {
        let expected: Vec<Vec<u8>> = text.lines().map(|l| l.as_bytes().to_vec()).collect();
        assert_eq!(lines_of(text.as_bytes()), expected);
    }
}

#[test]
fn find_byte_stops_at_the_first_match() {
    assert_eq!(find_byte(b"a;b;c", 0, b';'), 1);
    assert_eq!(find_byte(b"a;b;c", 1, b';'), 1);
    assert_eq!(find_byte(b"a;b;c", 2, b';'), 3);
    assert_eq!(find_byte(b"a;b;c", 4, b';'), 5);
    assert_eq!(find_byte(b"a;b;c", 5, b';'), 5);
    assert_eq!(find_byte(b"", 0, b';'), 0);
}

#[test]
fn main_items_are_at_the_crate_root() {
    let mut city = city_stats::City::default();
    city.add(-987);
    assert_eq!(city_stats::fmt_num(city.min()), "-98.7");
    assert_eq!(city_stats::decode_value(b"-98.7"), Ok(-987));
    assert_eq!(city_stats::get_average(&[5, -5]), city_stats::get_average_simd(&[-5, 5]));
    let mut table = city_stats::Table::new();
    table.observe(b"k", 5);
    assert_eq!(
        table.drain(),
        vec![city_stats::Row { key: b"k".to_vec(), min: 5, mean: 5, max: 5 }]
    );
    assert_eq!(city_stats::run(b"k"), Err(city_stats::Error::MalformedRecord));
}

#[test]
fn lines_agree_with_the_lines_of_every_short_str() {
    let alphabet = ['a', ';', '\r', '\n'];
    let mut texts: Vec<String> = vec![String::new()];
    let mut from = 0;
    for _ in 0..6 {
        let until = texts.len();
        for i in from..until {
            for c in alphabet {
                let mut longer = texts[i].clone();
                longer.push(c);
                texts.push(longer);
            }
        }
        from = until;
    }
    assert_eq!(texts.len(), 5461);
    for text in texts.iter() {
        let expected: Vec<Vec<u8>> = text.lines().map(|l| l.as_bytes().to_vec()).collect();
        assert_eq!(lines_of(text.as_bytes()), expected);
    }
}

struct Plain {
    min: i64,
    max: i64,
    sum: i64,
    count: i64,
}

fn plain_text(value: i64) -> String {
    let sign = if value < 0 { "-" } else { "" };
    format!("{sign}{}.{}", value.abs() / 10, value.abs() % 10)
}

#[test]
fn run_agrees_with_a_plain_aggregation() {
    let mut state: u64 = 0x2545_f491_4f6c_dd1d;
    let mut next = move || {
        state ^= state << 13;
        state ^= state >> 7;
        state ^= state << 17;
        state
    };
    let mut input = String::new();
    let mut plain: std::collections::BTreeMap<Vec<u8>, Plain> = std::collections::BTreeMap::new();
    for _ in 0..20_000 {
        let key = format!("station-{}", next() % 97);
        let value = (next() % 2001) as i64 - 1000;
        input.push_str(&format!("{key};{}\n", plain_text(value)));
        let entry = plain
            .entry(key.into_bytes())
            .or_insert(Plain { min: i64::MAX, max: i64::MIN, sum: 0, count: 0 });
        entry.min = entry.min.min(value);
        entry.max = entry.max.max(value);
        entry.sum += value;
        entry.count += 1;
    }
    let mut expected = String::new();
    for (key, stat) in plain.iter() {
        expected.push_str(&format!(
            "{};{};{};{}\n",
            String::from_utf8(key.clone()).unwrap(),
            plain_text(stat.min),
            plain_text(stat.sum / stat.count),
            plain_text(stat.max)
        ));
    }
    assert_eq!(plain.len(), 97);
    assert_eq!(run_text(&input), Ok(expected));
}
