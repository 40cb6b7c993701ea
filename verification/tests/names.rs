use process_tree::{widestring_to_string, ProcessRecord};

fn wide(text: &str) -> Vec<u16> {
    text.encode_utf16().collect()
}

#[test]
fn name_stops_at_first_terminator() {
    let mut buf = wide("init");
    buf.push(0);
    buf.extend(wide("garbage"));
    assert_eq!(widestring_to_string(&buf), "init");
}

#[test]
fn name_stops_at_first_of_two_terminators() {
    let buf: Vec<u16> = vec![97, 0, 98, 0, 99];
    assert_eq!(widestring_to_string(&buf), "a");
}

#[test]
fn name_without_terminator_is_whole_buffer() {
    assert_eq!(widestring_to_string(&wide("explorer.exe")), "explorer.exe");
}

#[test]
fn name_of_empty_buffer_is_empty() {
    assert_eq!(widestring_to_string(&[]), "");
}

#[test]
fn name_with_leading_terminator_is_empty() {
    let buf: Vec<u16> = vec![0, 97, 98];
    assert_eq!(widestring_to_string(&buf), "");
}

#[test]
fn name_in_fixed_capacity_buffer() {
    let mut buf = [0u16; 260];
    for (i, unit) in wide("svchost.exe").into_iter().enumerate() {
        buf[i] = unit;
    }
    assert_eq!(widestring_to_string(&buf), "svchost.exe");
}

#[test]
fn name_keeps_text_outside_ascii() {
    let mut buf = wide("caf\u{e9}-\u{1F600}.exe");
    buf.push(0);
    assert_eq!(widestring_to_string(&buf), "caf\u{e9}-\u{1F600}.exe");
}

#[test]
fn name_replaces_unpaired_surrogate() {
    let buf: Vec<u16> = vec![97, 0xD800, 98, 0];
    assert_eq!(widestring_to_string(&buf), "a\u{FFFD}b");
}

#[test]
fn name_replaces_trailing_low_surrogate() {
    let buf: Vec<u16> = vec![0xDC00];
    assert_eq!(widestring_to_string(&buf), "\u{FFFD}");
}

#[test]
fn name_cut_inside_surrogate_pair() {
    let buf: Vec<u16> = vec![0xD83D, 0, 0xDE00];
    assert_eq!(widestring_to_string(&buf), "\u{FFFD}");
}

#[test]
fn record_from_wide_decodes_name() {
    let mut buf = wide("shell");
    buf.push(0);
    buf.push(120);
    let record = ProcessRecord::from_wide(2, 1, &buf);
    assert_eq!(record, ProcessRecord { pid: 2, parent_pid: 1, name: String::from("shell") });
}

#[test]
fn record_new_keeps_fields() {
    let record = ProcessRecord::new(7, 3, String::from("editor"));
    assert_eq!(record.pid, 7);
    assert_eq!(record.parent_pid, 3);
    assert_eq!(record.name, "editor");
}

#[test]
fn record_duplicate_has_same_fields() {
    let record = ProcessRecord::new(7, 3, String::from("editor"));
    let copy = record.duplicate();
    assert_eq!(copy, record);
    assert_eq!(copy, ProcessRecord { pid: 7, parent_pid: 3, name: String::from("editor") });
}
