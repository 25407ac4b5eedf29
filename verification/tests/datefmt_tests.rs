use docs_manager::datefmt::{already_formatted, estimate_format_len, strip_date_prefix};

#[test]
fn test_estimate_format_len_default() {
    assert_eq!(estimate_format_len("%Y-%m-%d-%H-%M-%S"), 19);
}

#[test]
fn test_estimate_format_len_pieces() {
    assert_eq!(estimate_format_len(""), 0);
    assert_eq!(estimate_format_len("%Y"), 4);
    assert_eq!(estimate_format_len("%m%d"), 4);
    assert_eq!(estimate_format_len("abc"), 3);
    assert_eq!(estimate_format_len("%%S"), 3);
    assert_eq!(estimate_format_len("%Y/%m"), 7);
}

#[test]
fn test_strip_date_prefix_bare() {
    assert_eq!(strip_date_prefix("2023-01-01-old-title"), "old-title");
    assert_eq!(strip_date_prefix("2023-01-01_old-title"), "old-title");
}

#[test]
fn test_strip_date_prefix_full() {
    assert_eq!(strip_date_prefix("2023-01-01-10-30-00-title"), "title");
    assert_eq!(strip_date_prefix("2023-01-01-10-30-00_title"), "title");
}

#[test]
fn test_strip_date_prefix_absent() {
    assert_eq!(strip_date_prefix("notes"), "notes");
    assert_eq!(strip_date_prefix("2023-1-01-x"), "2023-1-01-x");
}

#[test]
fn test_strip_date_prefix_keeps_bare_date_stem() {
    // Stripping the whole stem would leave nothing, so it is kept.
    assert_eq!(strip_date_prefix("2023-01-01"), "2023-01-01");
}

#[test]
fn test_strip_date_prefix_full_date_only_falls_back() {
    // The full prefix covers the whole stem, so the bare date is stripped
    // instead.
    assert_eq!(strip_date_prefix("2023-01-01-10-30-00"), "10-30-00");
}

#[test]
fn test_already_formatted_canonical_name() {
    assert!(already_formatted(
        "2026-02-17-10-30-00-my-title",
        "%Y-%m-%d-%H-%M-%S"
    ));
}

#[test]
fn test_already_formatted_rejects_bad_date() {
    assert!(!already_formatted(
        "2026-99-99-10-30-00-my-title",
        "%Y-%m-%d-%H-%M-%S"
    ));
}

#[test]
fn test_already_formatted_rejects_short_stem() {
    assert!(!already_formatted("my-title", "%Y-%m-%d-%H-%M-%S"));
}

#[test]
fn test_already_formatted_needs_separator() {
    assert!(!already_formatted(
        "2026-02-17-10-30-00xmy-title",
        "%Y-%m-%d-%H-%M-%S"
    ));
}

#[test]
fn test_already_formatted_date_only_format_never_matches() {
    // A date-only pattern carries no time of day, so no stem parses back
    // into a full timestamp and nothing is taken for already canonical.
    assert!(!already_formatted("2026-title", "%Y"));
    assert!(!already_formatted("2026-02-17-title", "%Y-%m-%d"));
}
