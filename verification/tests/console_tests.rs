use folder_scanner::console::{color_for_thread, format_log_line, str_eq, truncate_status, RESET};

#[test]
fn known_thread_colors() {
    assert_eq!(color_for_thread("main"), "\x1b[38;5;255m");
    assert_eq!(color_for_thread("worker-sum-left"), "\x1b[38;5;204m");
    assert_eq!(color_for_thread("task-count-evens"), "\x1b[38;5;220m");
    assert_eq!(color_for_thread("cpu-scalar-mix"), "\x1b[38;5;208m");
    assert_eq!(color_for_thread("race-writer-3"), "\x1b[38;5;154m");
}

#[test]
fn unknown_thread_is_grey() {
    assert_eq!(color_for_thread("someone-else"), "\x1b[38;5;245m");
    assert_eq!(color_for_thread(""), "\x1b[38;5;245m");
    assert_eq!(color_for_thread("mai"), "\x1b[38;5;245m");
}

#[test]
fn string_equality() {
    assert!(str_eq("main", "main"));
    assert!(!str_eq("main", "main "));
    assert!(str_eq("ä-ö", "ä-ö"));
    assert!(!str_eq("ä", "a"));
}

#[test]
fn log_line_right_aligns_label() {
    let line = format_log_line("main", "hello");
    assert_eq!(line, format!("\x1b[38;5;255m[{:>20}] hello{}", "main", RESET));
    assert_eq!(line, "\x1b[38;5;255m[                main] hello\x1b[0m");
}

#[test]
fn log_line_keeps_long_label_whole() {
    let label = "a-very-long-thread-name-indeed";
    let line = format_log_line(label, "x");
    assert_eq!(line, format!("\x1b[38;5;245m[{}] x\x1b[0m", label));
}

#[test]
fn log_line_counts_characters_not_bytes() {
    let line = format_log_line("thé", "m");
    assert_eq!(line, format!("\x1b[38;5;245m[{:>20}] m\x1b[0m", "thé"));
}

#[test]
fn short_status_is_unchanged() {
    assert_eq!(truncate_status("/home/user/projects"), "/home/user/projects");
    let exactly = "x".repeat(96);
    assert_eq!(truncate_status(&exactly), exactly);
}

#[test]
fn long_status_keeps_last_93_bytes() {
    let long: String = (0..200).map(|i| char::from(b'a' + (i % 26) as u8)).collect();
    let got = truncate_status(&long);
    assert_eq!(got, format!("...{}", &long[long.len() - 93..]));
    assert_eq!(got.len(), 96);
}

#[test]
fn thread_colors_are_distinct_palette_escapes() {
    let names = [
        "main",
        "worker-sum-left",
        "worker-sum-right",
        "task-sum",
        "task-count-evens",
        "task-max",
        "sim-disk-read",
        "sim-http-get",
        "cpu-fibonacci",
        "cpu-scalar-mix",
        "race-writer-1",
        "race-writer-2",
        "race-writer-3",
    ];
    let grey = color_for_thread("not-a-thread");
    let mut seen: Vec<&str> = Vec::new();
    for name in names {
        let c = color_for_thread(name);
        assert!(c.starts_with("\x1b[38;5;") && c.ends_with('m'), "{name}");
        let code: u32 = c["\x1b[38;5;".len()..c.len() - 1].parse().unwrap();
        assert!(code <= 255);
        assert_eq!(c, format!("\x1b[38;5;{code}m"));
        assert_ne!(c, grey, "{name}");
        assert!(!seen.contains(&c), "{name}");
        seen.push(c);
    }
    assert_eq!(seen.len(), 13);
}

#[test]
fn shortening_twice_changes_nothing() {
    let long = format!("/mnt/données/{}x", "é".repeat(120));
    let once = truncate_status(&long);
    assert!(once.len() <= 96);
    assert_eq!(truncate_status(&once), once);
    let short = "/tmp/ok";
    assert_eq!(truncate_status(&truncate_status(short)), truncate_status(short));
}
