use city_stats::keys::{compare_keys, KeyOrder};
use city_stats::report::{render, Row};
use city_stats::table::Table;

fn row(key: &[u8], min: i16, mean: i16, max: i16) -> Row {
    Row { key: key.to_vec(), min, mean, max }
}

#[test]
fn keys_are_ordered_byte_by_byte() {
    assert_eq!(compare_keys(b"Bar", b"Foo"), KeyOrder::Before);
    assert_eq!(compare_keys(b"Foo", b"Bar"), KeyOrder::After);
    assert_eq!(compare_keys(b"Foo", b"Foo"), KeyOrder::Same);
    assert_eq!(compare_keys(b"", b""), KeyOrder::Same);
    assert_eq!(compare_keys(b"", b"a"), KeyOrder::Before);
    assert_eq!(compare_keys(b"a", b""), KeyOrder::After);
    assert_eq!(compare_keys(b"Foo", b"Foobar"), KeyOrder::Before);
    assert_eq!(compare_keys(b"Foobar", b"Foo"), KeyOrder::After);
    assert_eq!(compare_keys(b"Z", b"a"), KeyOrder::Before);
    assert_eq!(compare_keys("Zürich".as_bytes(), b"Zz"), KeyOrder::After);
    assert_eq!(compare_keys(&[0xff], &[0x00, 0xff]), KeyOrder::After);
}

#[test]
fn key_order_agrees_with_slice_order() {
    let keys: [&[u8]; 8] = [b"", b"A", b"A!", b"A;", b"AA", b"B", b"a", "é".as_bytes()];
    for a in keys {
        for b in keys {
            let expected = match a.cmp(b) {
                std::cmp::Ordering::Less => KeyOrder::Before,
                std::cmp::Ordering::Equal => KeyOrder::Same,
                std::cmp::Ordering::Greater => KeyOrder::After,
            };
            assert_eq!(compare_keys(a, b), expected);
        }
    }
}

#[test]
fn new_table_is_empty() {
    let table = Table::new();
    assert_eq!(table.len(), 0);
    assert!(table.get(b"Foo").is_none());
    assert_eq!(table.drain(), Vec::<Row>::new());
}

#[test]
fn observe_creates_then_updates() {
    let mut table = Table::new();
    table.observe(b"Foo", 123);
    assert_eq!(table.len(), 1);
    let first = table.get(b"Foo").unwrap();
    assert_eq!((first.count(), first.sum(), first.min(), first.max()), (1, 123, 123, 123));
    table.observe(b"Bar", 40);
    table.observe(b"Foo", 56);
    assert_eq!(table.len(), 2);
    let foo = table.get(b"Foo").unwrap();
    assert_eq!((foo.count(), foo.sum(), foo.min(), foo.max()), (2, 179, 56, 123));
    let bar = table.get(b"Bar").unwrap();
    assert_eq!((bar.count(), bar.sum(), bar.min(), bar.max()), (1, 40, 40, 40));
    assert!(table.get(b"Baz").is_none());
    assert!(table.get(b"Fo").is_none());
    assert!(table.get(b"Fooo").is_none());
}

#[test]
fn drain_reports_each_key_once_in_ascending_order() {
    let mut table = Table::new();
    for (key, value) in [
        (&b"Foo"[..], 123i16),
        (b"Bar", 40),
        (b"Foo", 56),
        (b"Zed", -10),
        (b"Abc", 7),
        (b"Zed", -20),
        (b"Bar", 41),
        (b"", 1),
    ] {
        table.observe(key, value);
    }
    assert_eq!(
        table.drain(),
        vec![
            row(b"", 1, 1, 1),
            row(b"Abc", 7, 7, 7),
            row(b"Bar", 40, 40, 41),
            row(b"Foo", 56, 89, 123),
            row(b"Zed", -20, -15, -10),
        ]
    );
}

#[test]
fn drain_does_not_depend_on_the_order_of_observations() {
    let observations: Vec<(&[u8], i16)> = vec![
        (b"d", 4),
        (b"a", -1),
        (b"c", 300),
        (b"a", 17),
        (b"b", 0),
        (b"d", -4),
        (b"a", 5),
        (b"c", 301),
        (b"ab", 9),
    ];
    let mut straight = Table::new();
    for (key, value) in observations.iter() {
        straight.observe(key, *value);
    }
    let expected = straight.drain();
    assert_eq!(
        expected,
        vec![
            row(b"a", -1, 7, 17),
            row(b"ab", 9, 9, 9),
            row(b"b", 0, 0, 0),
            row(b"c", 300, 300, 301),
            row(b"d", -4, 0, 4),
        ]
    );
    for shift in 1..observations.len() {
        let mut turned = observations.clone();
        turned.rotate_left(shift);
        let mut table = Table::new();
        for (key, value) in turned.iter() {
            table.observe(key, *value);
        }
        assert_eq!(table.drain(), expected);
        turned.reverse();
        let mut table = Table::new();
        for (key, value) in turned.iter() {
            table.observe(key, *value);
        }
        assert_eq!(table.drain(), expected);
    }
}

#[test]
fn table_keeps_many_keys_in_order() {
    let mut table = Table::new();
    for i in (0..500u32).rev() {
        let key = format!("key{:03}", (i * 7) % 500);
        table.observe(key.as_bytes(), (i % 100) as i16);
        table.observe(key.as_bytes(), -((i % 100) as i16));
    }
    assert_eq!(table.len(), 500);
    let rows = table.drain();
    assert_eq!(rows.len(), 500);
    for (i, row) in rows.iter().enumerate() {
        assert_eq!(row.key, format!("key{:03}", i).into_bytes());
        assert_eq!(row.mean, 0);
        assert_eq!(row.min, -row.max);
    }
}

#[test]
fn render_writes_one_line_for_each_row() {
    let rows = vec![row(b"Bar", 40, 40, 40), row(b"Foo", 56, 89, 123), row(b"N", -987, -5, 5)];
    assert_eq!(
        String::from_utf8(render(&rows)).unwrap(),
        "Bar;4.0;4.0;4.0\nFoo;5.6;8.9;12.3\nN;-98.7;-0.5;0.5\n"
    );
    assert_eq!(render(&[]), Vec::<u8>::new());
}
