use am_python::warnings::{warning_entries, WarningLog};

const LOG: &str = "\n! Warning: layer 3 is thin  Count: 2\n!          continued detail\n\n! Error: bad unit  Count: 1\n!          error detail\n! Warning: second warning\n";

fn owned(v: &[&str]) -> Vec<String> {
    v.iter().map(|s| s.to_string()).collect()
}

#[test]
fn entries_keep_only_warning_entries() {
    assert_eq!(
        warning_entries(LOG),
        vec![
            owned(&["! Warning: layer 3 is thin", "!          continued detail"]),
            owned(&["! Warning: second warning"]),
        ]
    );
}

#[test]
fn entries_of_errors_alone_are_empty() {
    assert!(warning_entries("! Error: something broke\n!   more about it\n").is_empty());
    assert!(warning_entries("").is_empty());
    assert!(warning_entries("   \n  ").is_empty());
}

#[test]
fn entries_drop_lines_before_any_entry() {
    assert_eq!(warning_entries("stray line\n! Warning: w  Count: 9"), vec![owned(&["! Warning: w"])]);
}

#[test]
fn entries_strip_count_from_each_line() {
    assert_eq!(
        warning_entries("! Warning: a  Count: 1\n!   b  Count: 2  Count: 3"),
        vec![owned(&["! Warning: a", "!   b"])]
    );
}

#[test]
fn each_warning_is_reported_once() {
    let mut log = WarningLog::new();
    let first = log.take_new_warnings(LOG);
    assert_eq!(
        first,
        owned(&[
            "! Warning: layer 3 is thin",
            "!          continued detail",
            "! Warning: second warning",
        ])
    );
    assert!(log.has_reported(&"! Warning: second warning".to_string()));
    assert!(log.has_reported(&"! Warning: layer 3 is thin\n!          continued detail".to_string()));
    assert!(log.take_new_warnings(LOG).is_empty());
    // the same warnings with another count are the same warnings
    let recount = LOG.replace("Count: 2", "Count: 7");
    assert!(log.take_new_warnings(&recount).is_empty());
}

#[test]
fn a_known_warning_is_not_reported_beside_a_new_one() {
    let mut log = WarningLog::new();
    assert_eq!(log.take_new_warnings("! Warning: A"), owned(&["! Warning: A"]));
    assert_eq!(
        log.take_new_warnings("! Warning: A  Count: 2\n! Warning: B"),
        owned(&["! Warning: B"])
    );
    assert!(log.take_new_warnings("! Warning: B  Count: 3\n! Warning: A  Count: 4").is_empty());
}

#[test]
fn a_warning_repeated_in_one_log_is_reported_once() {
    let mut log = WarningLog::new();
    assert_eq!(
        log.take_new_warnings("! Warning: C\n! Error: x\n! Warning: C  Count: 5"),
        owned(&["! Warning: C"])
    );
}

#[test]
fn errors_alone_report_nothing() {
    let mut log = WarningLog::new();
    assert!(log.take_new_warnings("! Error: failure\n!   detail").is_empty());
    assert!(!log.has_reported(&String::new()));
}

#[test]
fn a_trailing_count_only_line_is_not_reported() {
    let mut log = WarningLog::new();
    assert_eq!(log.take_new_warnings("! Warning:\n  Count:"), owned(&["! Warning:"]));
    let mut other = WarningLog::new();
    assert_eq!(
        other.take_new_warnings("! Warning: x\n  Count: 2\n! Warning: y"),
        owned(&["! Warning: x", "", "! Warning: y"])
    );
}

#[test]
fn a_carriage_return_before_a_joining_newline_is_dropped() {
    let mut log = WarningLog::new();
    assert_eq!(
        log.take_new_warnings("! Warning: a\r  Count: 1\n! Warning: b"),
        owned(&["! Warning: a", "! Warning: b"])
    );
}
