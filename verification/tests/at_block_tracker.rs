use stacks_metrics::at_block_tracker::{
    flush, init, log_at_block, requested_path, reset, Tracker, CSV_PATH_VAR,
};

const HEADER: &str = "current_block_height,target_block_hash,contract_id,sender,caller,call_stack_depth,call_stack_top,epoch,success,error_msg\n";

#[test]
fn test_log_without_init() {
    // Calling log_at_block without init should not panic
    let mut tracker = Tracker::new();
    reset(&mut tracker);
    log_at_block(
        &mut tracker, 100, "0xaabb", "contract-id", "sender", "caller", 2, "top", "2.1", true, "",
    );
    // Nothing has been logged either
    assert_eq!(flush(&mut tracker), None);
    assert_eq!(reset(&mut tracker), None);
}

#[test]
fn test_init_and_log() {
    let mut tracker = Tracker::new();
    reset(&mut tracker);

    let path = "at_block_tracker_test.csv";
    assert_eq!(init(&mut tracker, Some(path), Some(0)), None);

    log_at_block(
        &mut tracker,
        42,
        "aabbccdd",
        "SP123.my-contract",
        "SP123",
        "SP456",
        3,
        "my-function",
        "2.1",
        true,
        "",
    );
    log_at_block(
        &mut tracker,
        43,
        "11223344",
        "SP789.other",
        "SP789",
        "SP789",
        1,
        "",
        "2.05",
        false,
        "UnknownBlockHeaderHash",
    );
    let mut contents = String::new();
    if let Some(text) = flush(&mut tracker) {
        contents.push_str(&text);
    }
    if let Some(text) = reset(&mut tracker) {
        contents.push_str(&text);
    }

    let lines: Vec<&str> = contents.trim().lines().collect();
    assert_eq!(lines.len(), 3, "Expected header + 2 data rows");

    assert!(lines[0].starts_with("current_block_height,"));
    assert!(lines[1].starts_with("42,aabbccdd,"));
    assert!(lines[1].contains("SP123.my-contract"));
    assert!(lines[1].ends_with(",true,\"\""));
    assert!(lines[2].starts_with("43,11223344,"));
    assert!(lines[2].contains("UnknownBlockHeaderHash"));

    assert_eq!(
        lines[1],
        "42,aabbccdd,\"SP123.my-contract\",\"SP123\",\"SP456\",3,\"my-function\",2.1,true,\"\""
    );
    assert_eq!(
        lines[2],
        "43,11223344,\"SP789.other\",\"SP789\",\"SP789\",1,\"\",2.05,false,\"UnknownBlockHeaderHash\""
    );
}

#[test]
fn variable_name() {
    assert_eq!(CSV_PATH_VAR, "STACKS_AT_BLOCK_CSV");
}

#[test]
fn unset_or_empty_variable_asks_for_nothing() {
    assert_eq!(requested_path(None), None);
    assert_eq!(requested_path(Some("")), None);
    assert_eq!(requested_path(Some("log.csv")), Some("log.csv"));
}

#[test]
fn unset_or_empty_variable_leaves_the_tracker_alone() {
    let mut tracker = Tracker::new();
    assert_eq!(init(&mut tracker, None, Some(0)), None);
    assert_eq!(flush(&mut tracker), None);
    assert_eq!(init(&mut tracker, Some(""), None), None);
    assert_eq!(flush(&mut tracker), None);

    init(&mut tracker, Some("log.csv"), Some(0));
    assert_eq!(init(&mut tracker, None, Some(0)), None);
    assert_eq!(flush(&mut tracker), Some(HEADER.to_string()));
}

#[test]
fn header_goes_to_files_that_are_empty_or_of_unknown_length() {
    let mut tracker = Tracker::new();
    init(&mut tracker, Some("log.csv"), Some(0));
    assert_eq!(reset(&mut tracker), Some(HEADER.to_string()));
    init(&mut tracker, Some("log.csv"), None);
    assert_eq!(reset(&mut tracker), Some(HEADER.to_string()));
    init(&mut tracker, Some("log.csv"), Some(1));
    assert_eq!(reset(&mut tracker), Some(String::new()));
}

#[test]
fn new_file_displaces_the_text_for_the_old_one() {
    let mut tracker = Tracker::new();
    init(&mut tracker, Some("a.csv"), Some(0));
    assert_eq!(init(&mut tracker, Some("b.csv"), Some(9)), Some(HEADER.to_string()));
    assert_eq!(reset(&mut tracker), Some(String::new()));
}

#[test]
fn flush_hands_out_once_and_reset_deactivates() {
    let mut tracker = Tracker::new();
    init(&mut tracker, Some("log.csv"), Some(7));
    log_at_block(&mut tracker, 0, "h", "c", "s", "k", 0, "t", "1.0", false, "e");
    let row = "0,h,\"c\",\"s\",\"k\",0,\"t\",1.0,false,\"e\"\n";
    assert_eq!(flush(&mut tracker), Some(row.to_string()));
    assert_eq!(flush(&mut tracker), Some(String::new()));
    log_at_block(&mut tracker, 0, "h", "c", "s", "k", 0, "t", "1.0", false, "e");
    assert_eq!(reset(&mut tracker), Some(row.to_string()));
    log_at_block(&mut tracker, 0, "h", "c", "s", "k", 0, "t", "1.0", false, "e");
    assert_eq!(flush(&mut tracker), None);
}

#[test]
fn numbers_are_written_in_full() {
    let mut tracker = Tracker::new();
    init(&mut tracker, Some("log.csv"), Some(7));
    log_at_block(&mut tracker, u32::MAX, "", "", "", "", u64::MAX, "", "", true, "");
    assert_eq!(
        flush(&mut tracker),
        Some("4294967295,,\"\",\"\",\"\",18446744073709551615,\"\",,true,\"\"\n".to_string())
    );
}

#[test]
fn quotes_in_quoted_fields_are_doubled() {
    let mut tracker = Tracker::new();
    init(&mut tracker, Some("log.csv"), Some(7));
    log_at_block(&mut tracker, 7, "h", "a,b", "s\u{e9}", "say \"hi\"", 10, "x\ny", "3.0", true, "");
    assert_eq!(
        flush(&mut tracker),
        Some("7,h,\"a,b\",\"s\u{e9}\",\"say \"\"hi\"\"\",10,\"x\ny\",3.0,true,\"\"\n".to_string())
    );
    log_at_block(&mut tracker, 1, "h", "c", "s", "k", 0, "t", "2.1", false, r#"a"b"#);
    assert_eq!(
        flush(&mut tracker).unwrap(),
        format!("{}\n", r#"1,h,"c","s","k",0,"t",2.1,false,"a""b""#)
    );
    log_at_block(&mut tracker, 1, "h", "\"", "\"\"", "\u{e9}\"\u{4e16}", 0, "\"x", "2.1", false, "x\"");
    assert_eq!(
        flush(&mut tracker).unwrap(),
        "1,h,\"\"\"\",\"\"\"\"\"\",\"\u{e9}\"\"\u{4e16}\",0,\"\"\"x\",2.1,false,\"x\"\"\"\n"
    );
}

/// Splits a line as a reader of comma-separated values does.
fn split(line: &str) -> Vec<String> {
    let mut fields: Vec<String> = vec![String::new()];
    let mut in_quotes = false;
    let mut chars = line.chars().peekable();
    while let Some(c) = chars.next() {
        if c == '"' && in_quotes && chars.peek() == Some(&'"') {
            chars.next();
            fields.last_mut().unwrap().push('"');
        } else if c == '"' {
            in_quotes = !in_quotes;
        } else if c == ',' && !in_quotes {
            fields.push(String::new());
        } else {
            fields.last_mut().unwrap().push(c);
        }
    }
    fields
}

#[test]
fn row_reads_back() {
    let mut tracker = Tracker::new();
    init(&mut tracker, Some("log.csv"), Some(7));
    log_at_block(
        &mut tracker, 12, "ff", "SP1.a,b", "", "c", 3, "f, \"g\"", "2.4", false, "\"a\", b, \"",
    );
    let text = flush(&mut tracker).unwrap();
    assert_eq!(
        split(text.trim_end()),
        vec!["12", "ff", "SP1.a,b", "", "c", "3", "f, \"g\"", "2.4", "false", "\"a\", b, \""]
    );
}

#[test]
fn header_comes_once_over_two_sessions() {
    let mut file = String::new();
    for height in [1u32, 2u32] {
        let mut tracker = Tracker::new();
        init(&mut tracker, Some("log.csv"), Some(file.len() as u64));
        log_at_block(&mut tracker, height, "h", "c", "s", "k", 0, "t", "1.0", true, "");
        file.push_str(&reset(&mut tracker).unwrap());
    }
    assert_eq!(
        file,
        format!(
            "{}1,h,\"c\",\"s\",\"k\",0,\"t\",1.0,true,\"\"\n2,h,\"c\",\"s\",\"k\",0,\"t\",1.0,true,\"\"\n",
            HEADER
        )
    );
}

#[test]
fn flushing_often_or_never_writes_the_same() {
    let mut often = String::new();
    let mut never = String::new();
    let mut a = Tracker::new();
    let mut b = Tracker::new();
    init(&mut a, Some("a.csv"), Some(0));
    init(&mut b, Some("b.csv"), Some(0));
    for height in [10u32, 11u32, 12u32] {
        log_at_block(&mut a, height, "h", "c", "s", "k", 1, "t", "1.0", true, "");
        often.push_str(&flush(&mut a).unwrap());
        log_at_block(&mut b, height, "h", "c", "s", "k", 1, "t", "1.0", true, "");
    }
    often.push_str(&reset(&mut a).unwrap());
    never.push_str(&reset(&mut b).unwrap());
    assert_eq!(often, never);
    assert_eq!(often.lines().count(), 4);
}
