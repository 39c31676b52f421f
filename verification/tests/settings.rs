use skrub_rust::text::{parse_usize, push_decimal};
use skrub_rust::threads::{custom_pool_size, get_num_threads};
use skrub_rust::timing::{debug_enabled, is_switched_on, start_timing, timing_line};

#[test]
fn thread_settings_are_read() {
    assert_eq!(get_num_threads(None), 0);
    assert_eq!(get_num_threads(Some("4")), 4);
    assert_eq!(get_num_threads(Some("+4")), 4);
    assert_eq!(get_num_threads(Some("007")), 7);
    assert_eq!(get_num_threads(Some("-4")), 0);
    assert_eq!(get_num_threads(Some(" 4")), 0);
    assert_eq!(get_num_threads(Some("4.0")), 0);
    assert_eq!(get_num_threads(Some("")), 0);
    assert_eq!(get_num_threads(Some("many")), 0);
}

#[test]
fn words_are_parsed_as_the_standard_library_does() {
    for s in [
        "0",
        "+",
        "++1",
        "1_000",
        "18446744073709551615",
        "18446744073709551616",
        "99999999999999999999999",
        "00000000000000000000001",
        "12a",
        "\u{0663}",
    ] {
        assert_eq!(parse_usize(s), s.parse::<usize>().ok(), "{s}");
    }
}

#[test]
fn decimals_are_read_back() {
    for n in [0usize, 7, 10, 99, 1024, usize::MAX] {
        let mut s = String::new();
        push_decimal(&mut s, n as u128);
        assert_eq!(s, n.to_string());
        assert_eq!(parse_usize(&s), Some(n));
    }
}

#[test]
fn zero_threads_mean_the_global_pool() {
    assert_eq!(custom_pool_size(0), None);
    assert_eq!(custom_pool_size(3), Some(3));
}

#[test]
fn timing_is_asked_for_with_a_one() {
    assert!(debug_enabled(Some("1")));
    assert!(!debug_enabled(Some("0")));
    assert!(!debug_enabled(Some("11")));
    assert!(!debug_enabled(Some("true")));
    assert!(!debug_enabled(Some("ON")));
    assert!(!debug_enabled(Some(" 1")));
    assert!(!debug_enabled(Some("")));
    assert!(!debug_enabled(None));
    assert!(is_switched_on(&"1".to_string()));
    assert!(!is_switched_on(&"A".to_string()));
}

#[test]
fn no_start_time_when_disabled() {
    assert!(start_timing(false).is_none());
    let before = std::time::Instant::now();
    let start = start_timing(true).unwrap();
    assert!(start >= before);
}

#[test]
fn timing_lines_are_printed_only_where_asked_for() {
    assert_eq!(timing_line("build y", None), None);
    assert_eq!(
        timing_line("build y", Some(1234)).as_deref(),
        Some("[rust] build y: 1234ms")
    );
    assert_eq!(timing_line("", Some(0)).as_deref(), Some("[rust] : 0ms"));
}
