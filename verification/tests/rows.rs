use crumbs::errors::Error;
use crumbs::codec::{encode_field, encode_row, format_usize, parse_content, parse_usize};
use crumbs::files::{
    append_handoff, append_memory, ensure_handoffs_file, ensure_memories_file, read_handoffs,
    read_memories,
};
use crumbs::records::{HandoffRecord, MemoryRecord};

fn sample_memory() -> MemoryRecord {
    MemoryRecord {
        id: "cr-ab12".to_string(),
        kind: "what".to_string(),
        text: "remember this".to_string(),
        ts_utc: "2024-01-02T03:04:05.678Z".to_string(),
        cwd: "src/app".to_string(),
        git_branch: None,
        git_head: None,
    }
}

#[test]
fn encode_field_quotes_only_when_needed() {
    assert_eq!(encode_field("plain"), "plain");
    assert_eq!(encode_field(""), "");
    assert_eq!(encode_field("a,b"), "\"a,b\"");
    assert_eq!(encode_field("say \"hi\""), "\"say \"\"hi\"\"\"");
    assert_eq!(encode_field("two\nlines"), "\"two\nlines\"");
}

#[test]
fn encode_row_joins_and_terminates() {
    let fields = vec!["a".to_string(), "b,c".to_string(), "".to_string()];
    assert_eq!(encode_row(&fields), "a,\"b,c\",\n");
}

#[test]
fn parse_content_inverts_encode_row() {
    let fields = vec![
        "plain".to_string(),
        "with,comma".to_string(),
        "with \"quote\"".to_string(),
        "".to_string(),
        "line\nbreak".to_string(),
    ];
    let line = encode_row(&fields);
    let rows = parse_content(&line).unwrap();
    assert_eq!(rows.len(), 1);
    assert_eq!(rows[0], fields);
}

#[test]
fn parse_content_rejects_unterminated_quote() {
    assert!(parse_content("\"unterminated").is_none());
}

#[test]
fn decimal_codec_round_trips() {
    assert_eq!(format_usize(0), "0");
    assert_eq!(format_usize(12345), "12345");
    assert_eq!(parse_usize("0"), Some(0));
    assert_eq!(parse_usize("12345"), Some(12345));
    assert_eq!(parse_usize("0042"), Some(42));
    assert_eq!(parse_usize(""), None);
    assert_eq!(parse_usize("12a"), None);
    assert_eq!(parse_usize("99999999999999999999999999"), None);
}

#[test]
fn headers_written_only_into_empty_files() {
    let header = ensure_memories_file(0).unwrap();
    assert_eq!(header, "id,kind,text,ts_utc,cwd,git_branch,git_head\n");
    assert!(ensure_memories_file(120).is_none());
    let header = ensure_handoffs_file(0).unwrap();
    assert_eq!(
        header,
        "id,ts_utc,from_memory_id,to_memory_id,suggested_window,cwd,git_branch,git_head\n"
    );
    assert!(ensure_handoffs_file(9).is_none());
}

#[test]
fn memory_row_round_trips_with_absent_optionals() {
    let rec = sample_memory();
    let mut content = ensure_memories_file(0).unwrap();
    content.push_str(&append_memory(&rec));
    let back = read_memories(Some(&content)).unwrap();
    assert_eq!(back.len(), 1);
    assert_eq!(back[0].id, rec.id);
    assert_eq!(back[0].text, rec.text);
    // The absent fields come back absent, not as empty strings.
    assert_eq!(back[0].git_branch, None);
    assert_eq!(back[0].git_head, None);
}

#[test]
fn memory_row_round_trips_awkward_field_contents() {
    let mut rec = sample_memory();
    rec.cwd = "dir with,comma and \"quotes\"".to_string();
    rec.git_branch = Some("feature/x,y".to_string());
    rec.git_head = Some("abc123".to_string());
    let mut content = ensure_memories_file(0).unwrap();
    content.push_str(&append_memory(&rec));
    let back = read_memories(Some(&content)).unwrap();
    assert_eq!(back.len(), 1);
    assert_eq!(back[0].cwd, rec.cwd);
    assert_eq!(back[0].git_branch.as_deref(), Some("feature/x,y"));
    assert_eq!(back[0].git_head.as_deref(), Some("abc123"));
}

#[test]
fn read_memories_of_missing_file_is_empty() {
    assert_eq!(read_memories(None).unwrap().len(), 0);
    assert_eq!(read_handoffs(None).unwrap().len(), 0);
    // A header-only file holds no records either.
    let content = ensure_memories_file(0).unwrap();
    assert_eq!(read_memories(Some(&content)).unwrap().len(), 0);
}

#[test]
fn read_memories_rejects_malformed_rows() {
    let mut content = ensure_memories_file(0).unwrap();
    content.push_str("only,three,fields\n");
    assert_eq!(read_memories(Some(&content)).err(), Some(Error::MalformedRow));
    let mut content = ensure_memories_file(0).unwrap();
    content.push_str("\"unterminated");
    assert_eq!(read_memories(Some(&content)).err(), Some(Error::MalformedRow));
}

#[test]
fn handoff_row_round_trips_window_and_bounds() {
    let rec = HandoffRecord {
        id: "hf-xy42".to_string(),
        ts_utc: "2024-01-05T00:00:00.000Z".to_string(),
        from_memory_id: None,
        to_memory_id: "cr-ab12".to_string(),
        suggested_window: 17,
        cwd: ".".to_string(),
        git_branch: Some("main".to_string()),
        git_head: None,
    };
    let mut content = ensure_handoffs_file(0).unwrap();
    content.push_str(&append_handoff(&rec));
    let back = read_handoffs(Some(&content)).unwrap();
    assert_eq!(back.len(), 1);
    assert_eq!(back[0].id, rec.id);
    assert_eq!(back[0].from_memory_id, None);
    assert_eq!(back[0].to_memory_id, "cr-ab12");
    assert_eq!(back[0].suggested_window, 17);
    assert_eq!(back[0].git_branch.as_deref(), Some("main"));
    assert_eq!(back[0].git_head, None);
}

#[test]
fn appending_keeps_earlier_records_readable() {
    let mut content = ensure_memories_file(0).unwrap();
    let mut first = sample_memory();
    first.text = "first note".to_string();
    content.push_str(&append_memory(&first));
    let mut second = sample_memory();
    second.id = "cr-cd34".to_string();
    second.text = "second note".to_string();
    content.push_str(&append_memory(&second));
    let back = read_memories(Some(&content)).unwrap();
    assert_eq!(back.len(), 2);
    assert_eq!(back[0].text, "first note");
    assert_eq!(back[1].text, "second note");
}
