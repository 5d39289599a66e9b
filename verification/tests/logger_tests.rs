use foxinsocks::utills::log_tail::tail_lines;
use foxinsocks::utills::logger::{error, file_name_for_date, file_name_for_today, log, warning, Level, LogEntry};

#[test]
fn level_names_and_colors() {
    assert_eq!(Level::Log.as_str(), "LOG");
    assert_eq!(Level::Warning.as_str(), "WARNING");
    assert_eq!(Level::Error.as_str(), "ERROR");
    assert_eq!(Level::Log.color(), "\x1b[90m");
    assert_eq!(Level::Warning.color(), "\x1b[33m");
    assert_eq!(Level::Error.color(), "\x1b[31m");
}

#[test]
fn entry_lines() {
    let e = LogEntry::new(Level::Warning, "2024-01-02 03:04:05", "uwaga");
    assert_eq!(e.plain_line(), "[2024-01-02 03:04:05][WARNING] uwaga\n");
    assert_eq!(e.colored_line(), "\x1b[33m[2024-01-02 03:04:05][WARNING] uwaga\x1b[0m");
    assert!(!e.to_stderr());
    assert!(LogEntry::new(Level::Error, "t", "m").to_stderr());
}

#[test]
fn log_functions_set_level_and_message() {
    let l = log("start");
    assert_eq!(l.level, Level::Log);
    assert_eq!(l.message, "start");
    assert_eq!(l.timestamp.len(), 19);
    let b = l.timestamp.as_bytes();
    assert_eq!((b[4], b[7], b[10], b[13], b[16]), (b'-', b'-', b' ', b':', b':'));
    assert_eq!(warning("w").level, Level::Warning);
    assert_eq!(error("e").level, Level::Error);
}

#[test]
fn log_file_names() {
    assert_eq!(file_name_for_date("2024-05-06"), "Backend_logs_2024-05-06.txt");
    let today = file_name_for_today();
    assert!(today.starts_with("Backend_logs_") && today.ends_with(".txt"));
    let date = &today["Backend_logs_".len()..today.len() - 4];
    assert_eq!(date.len(), 10);
    assert!(date.chars().enumerate().all(|(i, c)| if i == 4 || i == 7 { c == '-' } else { c.is_ascii_digit() }));
}

#[test]
fn tail_takes_last_lines() {
    assert_eq!(tail_lines("a\nb\nc\n", 2), "b\nc");
    assert_eq!(tail_lines("a\r\nb\r\nc", 5), "a\nb\nc");
    assert_eq!(tail_lines("", 3), "");
    assert_eq!(tail_lines("x\n\ny", 2), "\ny");
    assert_eq!(tail_lines("only", 0), "");
    assert_eq!(tail_lines("a\rb\r", 1), "a\rb\r");
}

#[test]
fn tail_agrees_with_str_lines() {
    let texts = ["l1\nl2\r\nl3\n\n", "\n", "\n\n", "a\r", "żółw\nkot\n"];
    for t in texts.iter() {
        for n in 0..5usize {
            let lines: Vec<&str> = t.lines().collect();
            let start = if n >= lines.len() { 0 } else { lines.len() - n };
            assert_eq!(tail_lines(t, n), lines[start..].join("\n"), "text {:?} n {}", t, n);
        }
    }
}
