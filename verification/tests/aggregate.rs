use usage_by_date::calendar::epoch_seconds;
use usage_by_date::entry::{bucket_key, contribution_of, contribution_with, Entry, EntryKind, Mode};
use usage_by_date::report::{is_shown, report_rows, YEAR_THRESHOLD};
use usage_by_date::scan::aggregate;
use usage_by_date::totals::{Bucket, SizeAggregate, TraversalError};

const MIB: u64 = 1_048_576;
const JUNE_2021: i64 = 1_623_715_200;
const MARCH_2022: i64 = 1_646_092_800;
const JULY_2022: i64 = 1_656_892_800;

fn file(size: u64, modified: i64) -> Entry {
    Entry { kind: EntryKind::RegularFile, size: Some(size), modified: Some(modified) }
}

fn gib_text(bytes: u64) -> String {
    format!("{:.2}", bytes as f64 / 1_073_741_824.0)
}

fn three_files() -> Vec<Entry> {
    vec![file(50 * MIB, JUNE_2021), file(60 * MIB, MARCH_2022), file(50 * MIB, JULY_2022)]
}

#[test]
fn three_files_by_year() {
    let found = aggregate(&three_files(), Mode::ByYear).unwrap();
    assert_eq!(found.len(), 2);
    assert_eq!(found.get(2021), Some(50 * MIB));
    assert_eq!(found.get(2022), Some(110 * MIB));
    assert_eq!(found.get(2023), None);
    let rows = report_rows(&found, Mode::ByYear);
    assert_eq!(rows, vec![Bucket { key: 2022, bytes: 115_343_360 }]);
    assert_eq!(gib_text(rows[0].bytes), "0.11");
}

#[test]
fn three_files_by_month_of_2022() {
    let mode = Mode::ByMonth { year: 2022 };
    let found = aggregate(&three_files(), mode).unwrap();
    let rows = report_rows(&found, mode);
    assert_eq!(
        rows,
        vec![Bucket { key: 3, bytes: 60 * MIB }, Bucket { key: 7, bytes: 50 * MIB }]
    );
    let sum: u64 = rows.iter().map(|b| b.bytes).sum();
    assert_eq!(sum, 110 * MIB);
    assert_eq!(gib_text(rows[0].bytes), "0.06");
    assert_eq!(gib_text(rows[1].bytes), "0.05");
}

#[test]
fn month_mode_leaves_other_years_out() {
    let found = aggregate(&three_files(), Mode::ByMonth { year: 2021 }).unwrap();
    assert_eq!(found.len(), 1);
    assert_eq!(found.get(6), Some(50 * MIB));
    let none = aggregate(&three_files(), Mode::ByMonth { year: 1999 }).unwrap();
    assert_eq!(none.len(), 0);
}

#[test]
fn months_of_a_year_sum_to_the_year() {
    let entries = vec![
        file(7, JUNE_2021),
        file(11, MARCH_2022),
        file(13, JULY_2022),
        file(17, MARCH_2022 + 86_400),
        file(19, 0),
    ];
    let by_year = aggregate(&entries, Mode::ByYear).unwrap();
    let by_month = aggregate(&entries, Mode::ByMonth { year: 2022 }).unwrap();
    let mut sum: u64 = 0;
    for i in 0..by_month.len() {
        sum += by_month.bucket(i).bytes;
    }
    assert_eq!(sum, 41);
    assert_eq!(by_year.get(2022), Some(41));
    assert_eq!(by_month.get(3), Some(28));
    assert_eq!(by_month.get(7), Some(13));
}

#[test]
fn every_readable_file_is_counted_by_year() {
    let entries = vec![file(1, 0), file(2, JUNE_2021), file(4, JULY_2022), file(8, -1)];
    let found = aggregate(&entries, Mode::ByYear).unwrap();
    let mut sum: u64 = 0;
    for i in 0..found.len() {
        sum += found.bucket(i).bytes;
    }
    assert_eq!(sum, 15);
    assert_eq!(found.get(1969), Some(8));
    assert_eq!(found.get(1970), Some(1));
}

#[test]
fn threshold_is_strict() {
    assert_eq!(YEAR_THRESHOLD, 100 * MIB);
    assert!(!is_shown(Mode::ByYear, 100 * MIB));
    assert!(is_shown(Mode::ByYear, 100 * MIB + 1));
    assert!(is_shown(Mode::ByMonth { year: 2022 }, 0));
    let entries = vec![file(100 * MIB, JUNE_2021), file(100 * MIB, MARCH_2022), file(1, JULY_2022)];
    let found = aggregate(&entries, Mode::ByYear).unwrap();
    assert_eq!(found.get(2021), Some(104_857_600));
    assert_eq!(
        report_rows(&found, Mode::ByYear),
        vec![Bucket { key: 2022, bytes: 104_857_601 }]
    );
}

#[test]
fn rows_ascend_whatever_the_order_of_entries() {
    let entries = vec![
        file(300 * MIB, JULY_2022),
        file(200 * MIB, 0),
        file(400 * MIB, JUNE_2021),
        file(500 * MIB, -1),
    ];
    let rows = report_rows(&aggregate(&entries, Mode::ByYear).unwrap(), Mode::ByYear);
    let keys: Vec<i32> = rows.iter().map(|b| b.key).collect();
    assert_eq!(keys, vec![1969, 1970, 2021, 2022]);
    let months = vec![file(1, JULY_2022), file(2, MARCH_2022), file(3, 1_672_531_199)];
    let mode = Mode::ByMonth { year: 2022 };
    let rows = report_rows(&aggregate(&months, mode).unwrap(), mode);
    let keys: Vec<i32> = rows.iter().map(|b| b.key).collect();
    assert_eq!(keys, vec![3, 7, 12]);
}

#[test]
fn two_runs_agree() {
    let first = aggregate(&three_files(), Mode::ByYear).unwrap();
    let second = aggregate(&three_files(), Mode::ByYear).unwrap();
    let mut turned = three_files();
    turned.reverse();
    let third = aggregate(&turned, Mode::ByYear).unwrap();
    assert_eq!(first.len(), second.len());
    assert_eq!(first.len(), third.len());
    for i in 0..first.len() {
        assert_eq!(first.bucket(i), second.bucket(i));
        assert_eq!(first.bucket(i), third.bucket(i));
    }
    assert_eq!(report_rows(&first, Mode::ByYear), report_rows(&third, Mode::ByYear));
}

#[test]
fn what_is_no_regular_file_adds_nothing() {
    let kinds = [EntryKind::Directory, EntryKind::Symlink, EntryKind::Other];
    let mut entries = three_files();
    for kind in kinds {
        let entry = Entry { kind, size: Some(900 * MIB), modified: Some(JULY_2022) };
        assert_eq!(contribution_of(&entry, Mode::ByYear), None);
        assert_eq!(contribution_of(&entry, Mode::ByMonth { year: 2022 }), None);
        entries.insert(1, entry);
    }
    let found = aggregate(&entries, Mode::ByYear).unwrap();
    assert_eq!(found.len(), 2);
    assert_eq!(found.get(2021), Some(50 * MIB));
    assert_eq!(found.get(2022), Some(110 * MIB));
}

#[test]
fn no_entries_no_buckets() {
    let found = aggregate(&Vec::new(), Mode::ByYear).unwrap();
    assert_eq!(found.len(), 0);
    assert!(report_rows(&found, Mode::ByYear).is_empty());
    let found = aggregate(&Vec::new(), Mode::ByMonth { year: 2022 }).unwrap();
    assert!(report_rows(&found, Mode::ByMonth { year: 2022 }).is_empty());
}

#[test]
fn unreadable_metadata_is_passed_over() {
    let entries = vec![
        Entry { kind: EntryKind::RegularFile, size: None, modified: None },
        Entry { kind: EntryKind::RegularFile, size: Some(5), modified: None },
        Entry { kind: EntryKind::RegularFile, size: None, modified: Some(JULY_2022) },
        file(9, i64::MAX),
        file(9, i64::MIN),
        file(3, JULY_2022),
    ];
    let found = aggregate(&entries, Mode::ByYear).unwrap();
    assert_eq!(found.len(), 1);
    assert_eq!(found.get(2022), Some(3));
}

#[test]
fn an_empty_file_still_makes_its_bucket() {
    let mode = Mode::ByMonth { year: 2022 };
    let found = aggregate(&vec![file(0, MARCH_2022)], mode).unwrap();
    assert_eq!(report_rows(&found, mode), vec![Bucket { key: 3, bytes: 0 }]);
    assert_eq!(gib_text(0), "0.00");
}

#[test]
fn a_total_past_64_bits_fails() {
    let entries = vec![file(u64::MAX, JULY_2022), file(1, MARCH_2022)];
    assert_eq!(aggregate(&entries, Mode::ByYear).unwrap_err(), TraversalError::TotalOverflow);
    let apart = aggregate(&entries, Mode::ByMonth { year: 2022 }).unwrap();
    assert_eq!(apart.get(7), Some(u64::MAX));
    assert_eq!(apart.get(3), Some(1));
    let fits = vec![file(u64::MAX - 1, JULY_2022), file(1, MARCH_2022)];
    assert_eq!(aggregate(&fits, Mode::ByYear).unwrap().get(2022), Some(u64::MAX));
}

#[test]
fn dates_are_read_in_utc() {
    assert_eq!(contribution_of(&file(1, 1_672_531_199), Mode::ByYear), Some((2022, 1)));
    assert_eq!(contribution_of(&file(1, 1_672_531_200), Mode::ByYear), Some((2023, 1)));
    assert_eq!(
        contribution_of(&file(1, 1_672_531_199), Mode::ByMonth { year: 2022 }),
        Some((12, 1))
    );
    assert_eq!(
        contribution_of(&file(1, 1_672_531_200), Mode::ByMonth { year: 2023 }),
        Some((1, 1))
    );
    assert_eq!(contribution_of(&file(1, 1_672_531_200), Mode::ByMonth { year: 2022 }), None);
    assert_eq!(contribution_of(&file(2, 0), Mode::ByYear), Some((1970, 2)));
    assert_eq!(contribution_of(&file(2, -1), Mode::ByMonth { year: 1969 }), Some((12, 2)));
    assert_eq!(contribution_of(&file(2, 951_782_400), Mode::ByMonth { year: 2000 }), Some((2, 2)));
    assert_eq!(contribution_of(&file(2, i64::MAX), Mode::ByYear), None);
}

#[test]
fn bucket_is_year_or_month() {
    assert_eq!(bucket_key(Mode::ByYear, 2022, 7), Some(2022));
    assert_eq!(bucket_key(Mode::ByYear, -44, 3), Some(-44));
    assert_eq!(bucket_key(Mode::ByMonth { year: 2022 }, 2022, 7), Some(7));
    assert_eq!(bucket_key(Mode::ByMonth { year: 2022 }, 2021, 7), None);
    assert_eq!(bucket_key(Mode::ByMonth { year: 2022 }, 2022, 12), Some(12));
}

#[test]
fn contribution_follows_the_given_date() {
    let entry = file(10, JULY_2022);
    assert_eq!(contribution_with(&entry, Mode::ByYear, Some((2022, 7))), Some((2022, 10)));
    assert_eq!(contribution_with(&entry, Mode::ByYear, None), None);
    assert_eq!(
        contribution_with(&entry, Mode::ByMonth { year: 2022 }, Some((2022, 7))),
        Some((7, 10))
    );
    assert_eq!(contribution_with(&entry, Mode::ByMonth { year: 2022 }, Some((2020, 7))), None);
    let dir = Entry { kind: EntryKind::Directory, size: Some(10), modified: Some(JULY_2022) };
    assert_eq!(contribution_with(&dir, Mode::ByYear, Some((2022, 7))), None);
    let blind = Entry { kind: EntryKind::RegularFile, size: None, modified: Some(JULY_2022) };
    assert_eq!(contribution_with(&blind, Mode::ByYear, Some((2022, 7))), None);
    let undated = Entry { kind: EntryKind::RegularFile, size: Some(10), modified: None };
    assert_eq!(contribution_with(&undated, Mode::ByYear, Some((2022, 7))), None);
}

#[test]
fn add_keeps_keys_in_order() {
    let mut found = SizeAggregate::new();
    assert_eq!(found.len(), 0);
    assert_eq!(found.add(5, 10), Ok(()));
    assert_eq!(found.add(2, 1), Ok(()));
    assert_eq!(found.add(9, 4), Ok(()));
    assert_eq!(found.add(5, 7), Ok(()));
    assert_eq!(found.add(-3, 0), Ok(()));
    assert_eq!(found.len(), 4);
    assert_eq!(found.bucket(0), Bucket { key: -3, bytes: 0 });
    assert_eq!(found.bucket(1), Bucket { key: 2, bytes: 1 });
    assert_eq!(found.bucket(2), Bucket { key: 5, bytes: 17 });
    assert_eq!(found.bucket(3), Bucket { key: 9, bytes: 4 });
    assert_eq!(found.get(5), Some(17));
    assert_eq!(found.get(4), None);
}

#[test]
fn add_that_overflows_changes_nothing() {
    let mut found = SizeAggregate::new();
    assert_eq!(found.add(1, u64::MAX - 2), Ok(()));
    assert_eq!(found.add(1, 3), Err(TraversalError::TotalOverflow));
    assert_eq!(found.get(1), Some(u64::MAX - 2));
    assert_eq!(found.add(1, 2), Ok(()));
    assert_eq!(found.get(1), Some(u64::MAX));
    assert_eq!(found.add(2, u64::MAX), Ok(()));
    assert_eq!(found.len(), 2);
}

#[test]
fn seconds_round_down() {
    assert_eq!(epoch_seconds(false, 0, 0), Some(0));
    assert_eq!(epoch_seconds(false, 10, 999_999_999), Some(10));
    assert_eq!(epoch_seconds(true, 10, 0), Some(-10));
    assert_eq!(epoch_seconds(true, 10, 1), Some(-11));
    assert_eq!(epoch_seconds(true, 0, 1), Some(-1));
    assert_eq!(epoch_seconds(false, 9_223_372_036_854_775_807, 0), Some(i64::MAX));
    assert_eq!(epoch_seconds(false, 9_223_372_036_854_775_808, 0), None);
    assert_eq!(epoch_seconds(true, 9_223_372_036_854_775_808, 0), Some(i64::MIN));
    assert_eq!(epoch_seconds(true, 9_223_372_036_854_775_807, 1), Some(i64::MIN));
    assert_eq!(epoch_seconds(true, 9_223_372_036_854_775_808, 1), None);
    assert_eq!(epoch_seconds(true, u64::MAX, 0), None);
}
