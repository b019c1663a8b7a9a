use usage_by_date::entry::Mode;
use usage_by_date::invocation::{parse_arguments, plan, Invocation, UsageError};

fn args(words: &[&str]) -> Vec<String> {
    words.iter().map(|w| w.to_string()).collect()
}

#[test]
fn trailing_year_selects_months() {
    assert_eq!(
        parse_arguments(&args(&["a", "b", "2022"])),
        Ok(Invocation { path_count: 2, mode: Mode::ByMonth { year: 2022 } })
    );
}

#[test]
fn without_a_year_all_are_paths() {
    assert_eq!(
        parse_arguments(&args(&["a", "b"])),
        Ok(Invocation { path_count: 2, mode: Mode::ByYear })
    );
    assert_eq!(
        parse_arguments(&args(&["2022", "b"])),
        Ok(Invocation { path_count: 2, mode: Mode::ByYear })
    );
}

#[test]
fn no_arguments_is_a_usage_error() {
    assert_eq!(parse_arguments(&Vec::new()), Err(UsageError::NoArguments));
    assert_eq!(plan(0, None), Err(UsageError::NoArguments));
    assert_eq!(plan(0, Some(2022)), Err(UsageError::NoArguments));
}

#[test]
fn a_lone_year_leaves_no_path() {
    assert_eq!(
        parse_arguments(&args(&["2022"])),
        Ok(Invocation { path_count: 0, mode: Mode::ByMonth { year: 2022 } })
    );
}

#[test]
fn what_reads_as_an_integer() {
    let year = |text: &str| match parse_arguments(&args(&["a", text])) {
        Ok(Invocation { path_count: 1, mode: Mode::ByMonth { year } }) => Some(year),
        Ok(Invocation { path_count: 2, mode: Mode::ByYear }) => None,
        other => panic!("{:?}", other),
    };
    assert_eq!(year("0"), Some(0));
    assert_eq!(year("007"), Some(7));
    assert_eq!(year("+7"), Some(7));
    assert_eq!(year("-5"), Some(-5));
    assert_eq!(year("-0"), Some(0));
    assert_eq!(year("2147483647"), Some(i32::MAX));
    assert_eq!(year("-2147483648"), Some(i32::MIN));
    assert_eq!(year("2147483648"), None);
    assert_eq!(year("-2147483649"), None);
    assert_eq!(year(""), None);
    assert_eq!(year("+"), None);
    assert_eq!(year("-"), None);
    assert_eq!(year("+-1"), None);
    assert_eq!(year(" 2022"), None);
    assert_eq!(year("2022 "), None);
    assert_eq!(year("20_22"), None);
    assert_eq!(year("12x"), None);
    assert_eq!(year("2022.0"), None);
    assert_eq!(year("٢٠٢٢"), None);
}

#[test]
fn plan_counts_the_paths() {
    assert_eq!(plan(3, None), Ok(Invocation { path_count: 3, mode: Mode::ByYear }));
    assert_eq!(
        plan(3, Some(-1)),
        Ok(Invocation { path_count: 2, mode: Mode::ByMonth { year: -1 } })
    );
    assert_eq!(plan(1, Some(1999)), Ok(Invocation { path_count: 0, mode: Mode::ByMonth { year: 1999 } }));
}
