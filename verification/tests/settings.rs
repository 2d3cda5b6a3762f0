use r_archiver::config::{
    parse_u32, parse_u8, split_items, string_to_vec, try_string_to_vec, IntErrorKind,
    EXAMPLE_CONFIG,
};
use r_archiver::logger::{
    error, format_log_message, info, plan_log_destination, warn, ConfiguredLog, LogDestination,
    CONFIG_FILE_PATH, INITIAL_LOG_PATH,
};

fn kind_of(e: &std::num::ParseIntError) -> IntErrorKind {
    match e.kind() {
        std::num::IntErrorKind::Empty => IntErrorKind::Empty,
        std::num::IntErrorKind::InvalidDigit => IntErrorKind::InvalidDigit,
        std::num::IntErrorKind::PosOverflow => IntErrorKind::PosOverflow,
        other => panic!("unexpected kind {:?}", other),
    }
}

const SAMPLES: [&str; 18] = [
    "12", "", "+", "-", "-5", "+7", "256", "255", "00", "12a", "999a", "a999", "4294967295",
    "4294967296", "+0", "٣", " 1", "99999999999999999999x",
];

#[test]
fn u8_parsing_agrees_with_std() {
    for s in SAMPLES {
        let expected = s.parse::<u8>().map_err(|e| kind_of(&e));
        assert_eq!(parse_u8(s), expected, "input {:?}", s);
    }
}

#[test]
fn u32_parsing_agrees_with_std() {
    for s in SAMPLES {
        let expected = s.parse::<u32>().map_err(|e| kind_of(&e));
        assert_eq!(parse_u32(s), expected, "input {:?}", s);
    }
}

#[test]
fn parse_error_kinds() {
    assert_eq!(parse_u8(""), Err(IntErrorKind::Empty));
    assert_eq!(parse_u8("x"), Err(IntErrorKind::InvalidDigit));
    assert_eq!(parse_u8("300"), Err(IntErrorKind::PosOverflow));
    assert_eq!(parse_u8("999a"), Err(IntErrorKind::PosOverflow));
    assert_eq!(parse_u32("12"), Ok(12));
    assert_eq!(parse_u32("+00012"), Ok(12));
}

#[test]
fn error_descriptions_match_std() {
    for s in ["", "x", "300"] {
        let e = s.parse::<u8>().unwrap_err();
        assert_eq!(kind_of(&e).description(), e.to_string());
    }
}

#[test]
fn day_list_is_split_on_comma_space() {
    assert_eq!(string_to_vec(&"1, 3, 5".to_string()), vec![1, 3, 5]);
    assert_eq!(string_to_vec(&"7".to_string()), vec![7]);
    assert_eq!(try_string_to_vec(&"1,3".to_string()), Err(IntErrorKind::InvalidDigit));
    assert_eq!(try_string_to_vec(&"".to_string()), Err(IntErrorKind::Empty));
    assert_eq!(try_string_to_vec(&"1, , 2".to_string()), Err(IntErrorKind::Empty));
    assert_eq!(try_string_to_vec(&"1, 300".to_string()), Err(IntErrorKind::PosOverflow));
    assert_eq!(try_string_to_vec(&"1, 300, x".to_string()), Err(IntErrorKind::PosOverflow));
    assert_eq!(try_string_to_vec(&"x, 300".to_string()), Err(IntErrorKind::InvalidDigit));
}

#[test]
fn day_list_split_agrees_with_std() {
    for s in ["1, 2", "a,, b", ", ", "", ",  x, ,", "x, y, , z"] {
        let expected: Vec<Vec<char>> = s.split(", ").map(|p| p.chars().collect()).collect();
        assert_eq!(split_items(s), expected, "input {:?}", s);
    }
}

#[test]
fn example_config_is_yaml_with_all_fields() {
    let value: serde_yaml::Value = serde_yaml::from_str(EXAMPLE_CONFIG).unwrap();
    for key in ["path", "target_folder", "duration", "excluded_directories", "server", "log_path"] {
        assert!(value.get(key).is_some(), "{}", key);
    }
    assert_eq!(CONFIG_FILE_PATH, "./config/config.yml");
    assert_eq!(INITIAL_LOG_PATH, "./initial_status.log");
}

#[test]
fn log_message_format() {
    assert_eq!(
        format_log_message("2024-01-02T03:04:05+00:00", "INFO", "Program started"),
        "2024-01-02T03:04:05+00:00 [INFO] Program started"
    );
}

fn check_line(line: &str, level: &str, message: &str) {
    let marker = format!(" [{}] ", level);
    let at = line.find(&marker).expect("level marker");
    let ts = &line[..at];
    assert_eq!(&line[at + marker.len()..], message);
    assert!(ts.chars().all(|c| c.is_ascii_digit() || "+-:T.".contains(c)), "{}", ts);
    chrono::DateTime::parse_from_rfc3339(ts).expect("an RFC 3339 timestamp");
}

#[test]
fn levels_stamp_the_given_time() {
    let ts = "2024-01-02T03:04:05.123+02:00";
    assert_eq!(info(ts, "Program started"), format!("{} [INFO] Program started", ts));
    assert_eq!(warn(ts, "x"), format!("{} [WARN] x", ts));
    assert_eq!(error(ts, "boom [x] y"), format!("{} [ERROR] boom [x] y", ts));
    let now = chrono::Local::now().to_rfc3339();
    check_line(&info(&now, "Program started"), "INFO", "Program started");
}

#[test]
fn first_bad_item_decides_the_error_like_std() {
    for s in ["1, 300, x", "x, 300", "2, , 3", "5, 6"] {
        let expected: Result<Vec<u8>, IntErrorKind> = s
            .split(", ")
            .map(|p| p.parse::<u8>().map_err(|e| kind_of(&e)))
            .collect();
        assert_eq!(try_string_to_vec(&s.to_string()), expected, "{}", s);
    }
}

#[test]
fn log_timestamp_has_the_rfc3339_layout() {
    let line = info(&chrono::Local::now().to_rfc3339(), "x");
    let ts = line.split(' ').next().unwrap();
    let (date, rest) = ts.split_once('T').unwrap();
    assert_eq!(date.len(), 10);
    assert_eq!(&rest[2..3], ":");
    assert_eq!(&rest[5..6], ":");
    let offset = &rest[rest.len() - 6..];
    assert!(offset.starts_with('+') || offset.starts_with('-'));
    assert_eq!(&offset[3..4], ":");
    let fraction = &rest[8..rest.len() - 6];
    assert!(fraction.is_empty() || [4, 7, 10].contains(&fraction.len()));
}

#[test]
fn log_destination_choice() {
    let configured = |exists| Some(ConfiguredLog { path: "./status.log".to_string(), exists });
    assert_eq!(
        plan_log_destination(configured(true), false),
        LogDestination::Configured { path: "./status.log".to_string(), create_first: false }
    );
    assert_eq!(
        plan_log_destination(configured(false), true),
        LogDestination::Configured { path: "./status.log".to_string(), create_first: true }
    );
    assert_eq!(plan_log_destination(None, true), LogDestination::ExistingInitial);
    assert_eq!(plan_log_destination(None, false), LogDestination::CreateInitial);
}

#[test]
fn day_list_written_with_comma_space_reads_back() {
    for days in [vec![1u8], vec![1, 2, 7], vec![0, 255, 10, 100]] {
        let text = days.iter().map(|d| d.to_string()).collect::<Vec<_>>().join(", ");
        assert_eq!(string_to_vec(&text), days);
    }
}

#[test]
fn log_line_parts_are_recoverable() {
    let line = format_log_message("2024-01-02T03:04:05.5+01:00", "WARN", "a ] b [c] d");
    let (ts, rest) = line.split_once(' ').unwrap();
    assert_eq!(ts, "2024-01-02T03:04:05.5+01:00");
    let rest = rest.strip_prefix('[').unwrap();
    let (level, message) = rest.split_once("] ").unwrap();
    assert_eq!(level, "WARN");
    assert_eq!(message, "a ] b [c] d");
}
