use pgarray::aliases::{
    embedded_postgres_version, pg_functions, postgres_frontend_now, postgres_frontend_version,
    present_moment, timestamp_text, AliasFunction, Moment,
};
use pgarray::floats::{FloatStyle, FloatText};
use pgarray::unnest::{
    ConstraintInfo, ConstraintOp, ConstraintUsage, ResultCode, UnnestCursor, UnnestVirtualTable,
    COL_ARR, COL_VALUE,
};
use pgarray::value::Value;

fn floats() -> FloatText<impl Fn(&str) -> Option<u64>, impl Fn(u64, FloatStyle) -> String> {
    FloatText::new(
        |s: &str| s.parse::<f64>().ok().map(f64::to_bits),
        |bits: u64, style: FloatStyle| match style {
            FloatStyle::Bare => format!("{}", f64::from_bits(bits)),
            FloatStyle::OnePlace => format!("{:.1}", f64::from_bits(bits)),
            FloatStyle::Printed => format!("{:?}", f64::from_bits(bits)),
        },
    )
}

fn number(i: i64) -> Value {
    Value::from_i64(i)
}

fn float(x: f64) -> Value {
    Value::from_float_bits(x.to_bits())
}

fn text(s: &str) -> Value {
    Value::build_text(s)
}

fn rows(cursor: &mut UnnestCursor, args: &[Value]) -> Vec<(i64, Value)> {
    let mut rows = Vec::new();
    let mut more = cursor.filter(args, None, -1, &floats()).unwrap();
    while more {
        rows.push((cursor.rowid(), cursor.column(COL_VALUE).unwrap()));
        assert_eq!(cursor.column(COL_ARR).unwrap(), Value::Null);
        more = cursor.next().unwrap();
    }
    rows
}

fn constraint(column_index: u32, op: ConstraintOp, usable: bool) -> ConstraintInfo {
    ConstraintInfo { column_index, op, usable }
}

const UNUSED: ConstraintUsage = ConstraintUsage { argv_index: None, omit: false };
const ARGUMENT: ConstraintUsage = ConstraintUsage { argv_index: Some(1), omit: true };

#[test]
fn the_table_describes_itself() {
    let table = UnnestVirtualTable::new();
    assert_eq!(table.name(), "unnest");
    assert_eq!(
        table.sql(),
        "CREATE TABLE x(
            value ANY,      -- the unnested element
            arr ANY HIDDEN  -- input parameter: the array to unnest
        );"
    );
    assert_eq!(UnnestVirtualTable::default().name(), table.name());
}

#[test]
fn a_cursor_has_one_row_for_each_element() {
    let mut cursor = UnnestVirtualTable::new().open();
    assert_eq!(cursor.rowid(), -1);
    assert_eq!(
        rows(&mut cursor, &[text("{7,x,NULL}")]),
        [(0, number(7)), (1, text("x")), (2, Value::Null)]
    );
    assert_eq!(cursor.rowid(), 3);
    // A second filter starts again.
    assert_eq!(rows(&mut cursor, &[text("{y}"), number(1)]), [(0, text("y"))]);
}

#[test]
fn what_is_no_array_has_no_rows() {
    let mut cursor = UnnestCursor::empty();
    assert_eq!(rows(&mut cursor, &[]), []);
    for v in [Value::Null, number(1), text("x"), text("{{1}}"), Value::from_slice(&[0xff])] {
        assert_eq!(rows(&mut cursor, &[v]), []);
    }
}

#[test]
fn a_known_array_is_taken_as_the_argument() {
    let info = UnnestVirtualTable::new()
        .best_index(
            &[
                constraint(0, ConstraintOp::Eq, true),
                constraint(1, ConstraintOp::Eq, true),
                constraint(1, ConstraintOp::Gt, true),
                constraint(1, ConstraintOp::Eq, false),
            ],
            &[],
        )
        .unwrap();
    assert_eq!(info.constraint_usages, [UNUSED, ARGUMENT, UNUSED, UNUSED]);
    assert_eq!(f64::from_bits(info.estimated_cost), 1.0);
    assert_eq!(info.estimated_rows, 25);
    assert_eq!(info.idx_num, -1);
    assert_eq!(info.idx_str, None);
    assert!(!info.order_by_consumed);
}

#[test]
fn the_last_known_array_is_the_argument() {
    let eq = constraint(1, ConstraintOp::Eq, true);
    let info = UnnestVirtualTable::new().best_index(&[eq, eq], &[]).unwrap();
    assert_eq!(info.constraint_usages, [UNUSED, ARGUMENT]);
}

#[test]
fn without_an_array_the_cost_is_the_largest() {
    let info = UnnestVirtualTable::new()
        .best_index(&[constraint(0, ConstraintOp::Eq, false)], &[])
        .unwrap();
    assert_eq!(info.constraint_usages, [UNUSED]);
    assert_eq!(f64::from_bits(info.estimated_cost), f64::MAX);
    assert_eq!(info.estimated_rows, 25);
}

#[test]
fn an_array_that_is_not_known_yet_is_refused() {
    let r = UnnestVirtualTable::new().best_index(&[constraint(1, ConstraintOp::Eq, false)], &[]);
    assert_eq!(r.unwrap_err(), ResultCode::ConstraintViolation);
}

#[test]
fn functions_are_registered_under_their_names() {
    let found: Vec<(&str, i32, AliasFunction)> =
        pg_functions().iter().map(|a| (a.name, a.args, a.function)).collect();
    assert_eq!(
        found,
        [
            ("now", -1, AliasFunction::Now),
            ("clock_timestamp", -1, AliasFunction::Now),
            ("transaction_timestamp", -1, AliasFunction::Now),
            ("statement_timestamp", -1, AliasFunction::Now),
            ("version", -1, AliasFunction::Version),
        ]
    );
}

#[test]
fn functions_are_registered_without_flags_or_handles() {
    for a in pg_functions() {
        assert!(!a.deterministic);
        assert_eq!(a.flags, 0);
        assert_eq!(a.user_data, None);
        assert_eq!(a.destructor, None);
    }
}

#[test]
fn moments_are_written_to_the_millisecond() {
    let moment = Moment {
        year: 2024,
        month: 2,
        day: 29,
        hour: 3,
        minute: 4,
        second: 5,
        nanosecond: 6_999_999,
    };
    assert_eq!(timestamp_text(&moment).unwrap(), "2024-02-29 03:04:05.006");
    let with_year = |year: i32| timestamp_text(&Moment { year, day: 1, ..moment }).unwrap();
    assert_eq!(with_year(987), "0987-02-01 03:04:05.006");
    assert_eq!(with_year(0), "0000-02-01 03:04:05.006");
    assert_eq!(with_year(-1), "-0001-02-01 03:04:05.006");
    assert_eq!(with_year(10_000), "+10000-02-01 03:04:05.006");
    assert_eq!(with_year(262_142), "+262142-02-01 03:04:05.006");
    assert_eq!(with_year(-262_143), "-262143-02-01 03:04:05.006");
    let leap = Moment { second: 59, nanosecond: 1_500_000_000, ..moment };
    assert_eq!(timestamp_text(&leap).unwrap(), "2024-02-29 03:04:60.500");
    let last = Moment { month: 12, day: 31, hour: 23, minute: 59, second: 59, nanosecond: 999_999_999, ..moment };
    assert_eq!(timestamp_text(&last).unwrap(), "2024-12-31 23:59:59.999");
}

#[test]
fn moments_that_there_are_not_have_no_text() {
    let moment = Moment { year: 2023, month: 2, day: 28, hour: 0, minute: 0, second: 0, nanosecond: 0 };
    assert!(timestamp_text(&moment).is_some());
    for m in [
        Moment { day: 29, ..moment },
        Moment { day: 0, ..moment },
        Moment { year: 1900, day: 29, ..moment },
        Moment { month: 0, ..moment },
        Moment { month: 13, ..moment },
        Moment { month: 4, day: 31, ..moment },
        Moment { hour: 24, ..moment },
        Moment { minute: 60, ..moment },
        Moment { second: 60, ..moment },
        Moment { nanosecond: 1_000_000_000, ..moment },
        Moment { second: 59, nanosecond: 2_000_000_000, ..moment },
        Moment { year: 262_143, ..moment },
        Moment { year: -262_144, ..moment },
    ] {
        assert!(timestamp_text(&m).is_none(), "{m:?}");
    }
    assert!(timestamp_text(&Moment { year: 2000, day: 29, ..moment }).is_some());
}

#[test]
fn every_day_that_there_is_has_a_text() {
    let days = [31, 28, 31, 30, 31, 30, 31, 31, 30, 31, 30, 31];
    for month in 1..=12u32 {
        for day in 1..=32u32 {
            let m = Moment { year: 2023, month, day, hour: 0, minute: 0, second: 0, nanosecond: 0 };
            assert_eq!(timestamp_text(&m).is_some(), day <= days[month as usize - 1]);
        }
    }
}

#[test]
fn now_is_a_timestamp() {
    let Value::Text(now) = postgres_frontend_now(&[number(1)]) else {
        panic!("not a text");
    };
    let chars: Vec<char> = now.chars().collect();
    assert_eq!(chars.len(), 23);
    for (i, c) in chars.iter().enumerate() {
        match i {
            4 | 7 => assert_eq!(*c, '-'),
            10 => assert_eq!(*c, ' '),
            13 | 16 => assert_eq!(*c, ':'),
            19 => assert_eq!(*c, '.'),
            _ => assert!(c.is_ascii_digit()),
        }
    }
    assert!(now.as_str() > "2020-01-01 00:00:00.000");
    let since = std::time::SystemTime::now().duration_since(std::time::UNIX_EPOCH).unwrap();
    let seconds: u64 = chars[17..19].iter().collect::<String>().parse().unwrap();
    let gap = (since.as_secs() % 60 + 60 - seconds) % 60;
    assert!(gap <= 20);
}

#[test]
fn the_clock_shows_a_moment_that_there_is() {
    let before = timestamp_text(&present_moment()).unwrap();
    let Value::Text(now) = postgres_frontend_now(&[]) else {
        panic!("not a text");
    };
    let after = timestamp_text(&present_moment()).unwrap();
    assert!(before <= now && now <= after);
    let moment = present_moment();
    assert!(moment.year >= 1970 && moment.nanosecond < 1_000_000_000);
}

#[test]
fn versions_are_told_by_their_parts() {
    assert_eq!(embedded_postgres_version(Some(170007)), (17, 7));
    assert_eq!(embedded_postgres_version(Some(9999)), (0, 9999));
    assert_eq!(embedded_postgres_version(None), (0, 0));
    assert_eq!(embedded_postgres_version(Some(-170007)), (-170007 / 10000, -170007 % 10000));
    assert_eq!(embedded_postgres_version(Some(i32::MIN)), (i32::MIN / 10000, i32::MIN % 10000));
    assert_eq!(
        postgres_frontend_version(&[], Some(170007), "0.4.1"),
        text("PostgreSQL 17.7 on Turso 0.4.1")
    );
    assert_eq!(postgres_frontend_version(&[], None, "1"), text("PostgreSQL 0.0 on Turso 1"));
}
