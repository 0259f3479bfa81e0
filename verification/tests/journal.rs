use crumbs::errors::Error;
use crumbs::handoff::{mark_handoff, open_handoff};
use crumbs::ids::next_short_id;
use crumbs::order::{latest_handoff, latest_memory, sort_memories_desc};
use crumbs::records::MemoryRecord;
use crumbs::resolve::{resolve_handoff, resolve_memory_id};
use crumbs::store::{add_memory, find_memories, list_memories, show_memory};
use crumbs::text::validate_text;

fn mem(id: &str, ts: &str, text: &str) -> MemoryRecord {
    MemoryRecord {
        id: id.to_string(),
        kind: "what".to_string(),
        text: text.to_string(),
        ts_utc: ts.to_string(),
        cwd: ".".to_string(),
        git_branch: None,
        git_head: None,
    }
}

#[test]
fn validate_text_accepts_plain_short_text() {
    assert!(validate_text("fix the parser").is_ok());
}

#[test]
fn validate_text_rejects_empty() {
    assert_eq!(validate_text(""), Err(Error::EmptyText));
}

#[test]
fn validate_text_rejects_over_100_scalars() {
    let long = "x".repeat(101);
    assert_eq!(validate_text(&long), Err(Error::TextTooLong));
    let ok = "x".repeat(100);
    assert!(validate_text(&ok).is_ok());
}

#[test]
fn validate_text_rejects_line_breaks() {
    assert_eq!(validate_text("a\nb"), Err(Error::TextHasLineBreak));
    assert_eq!(validate_text("a\rb"), Err(Error::TextHasLineBreak));
}

#[test]
fn next_short_id_has_canonical_shape() {
    let existing: Vec<String> = vec!["cr-aaaa".to_string(), "CR-BBBB".to_string()];
    let id = next_short_id(&existing, "cr");
    assert!(id.starts_with("cr-"));
    assert!(id.len() >= 7);
    let suffix = &id[3..];
    assert!(suffix.chars().all(|c| c.is_ascii_lowercase() || c.is_ascii_digit()));
    for e in &existing {
        assert_ne!(e.to_ascii_lowercase(), id);
    }
}

#[test]
fn next_short_id_avoids_existing_ids_case_insensitively() {
    // Repeated draws against a growing set never duplicate an entry.
    let mut existing: Vec<String> = Vec::new();
    for _ in 0..50 {
        let id = next_short_id(&existing, "cr");
        assert!(!existing.iter().any(|e| e.to_ascii_lowercase() == id));
        existing.push(id.to_ascii_uppercase());
    }
}

#[test]
fn resolver_ambiguous_bare_and_full_prefixes() {
    let memories = vec![mem("cr-ab12", "t1", "first"), mem("cr-ab13", "t2", "second")];
    assert_eq!(resolve_memory_id(&memories, "ab1"), Err(Error::Ambiguous));
    assert_eq!(resolve_memory_id(&memories, "ab12"), Ok("cr-ab12".to_string()));
    assert_eq!(resolve_memory_id(&memories, "cr-ab12"), Ok("cr-ab12".to_string()));
    assert_eq!(resolve_memory_id(&memories, "zz"), Err(Error::NotFound));
}

#[test]
fn resolver_is_case_insensitive() {
    let memories = vec![mem("cr-ab12", "t1", "first")];
    assert_eq!(resolve_memory_id(&memories, "CR-AB12"), Ok("cr-ab12".to_string()));
    assert_eq!(resolve_memory_id(&memories, "AB12"), Ok("cr-ab12".to_string()));
}

#[test]
fn resolver_accepts_legacy_prefix_form() {
    let memories = vec![mem("c_ab12", "t1", "legacy row")];
    assert_eq!(resolve_memory_id(&memories, "ab12"), Ok("c_ab12".to_string()));
}

#[test]
fn add_then_show_returns_identical_note() {
    let memories = vec![mem("cr-old1", "2024-01-01T00:00:00.000Z", "older")];
    let rec = add_memory(
        &memories,
        "why".to_string(),
        "chose sqlite for storage".to_string(),
        "2024-01-02T00:00:00.000Z".to_string(),
        ".".to_string(),
        None,
        None,
    )
    .unwrap();
    assert!(rec.id.starts_with("cr-"));
    let mut grown = memories.clone();
    grown.push(rec.clone());
    let (id, kind, text, _ts, _cwd, _branch, _head) = show_memory(&grown, &rec.id).unwrap();
    assert_eq!(id, rec.id);
    assert_eq!(kind, "why");
    assert_eq!(text, "chose sqlite for storage");
}

#[test]
fn add_memory_rejects_invalid_text() {
    let memories: Vec<MemoryRecord> = Vec::new();
    let r = add_memory(
        &memories,
        "what".to_string(),
        "".to_string(),
        "t".to_string(),
        ".".to_string(),
        None,
        None,
    );
    assert_eq!(r.err(), Some(Error::EmptyText));
}

#[test]
fn list_memories_orders_newest_first_and_limits() {
    let memories = vec![
        mem("cr-a", "2024-01-01T00:00:00.000Z", "one"),
        mem("cr-c", "2024-01-03T00:00:00.000Z", "three"),
        mem("cr-b", "2024-01-02T00:00:00.000Z", "two"),
    ];
    let rows = list_memories(&memories, 2);
    assert_eq!(rows.len(), 2);
    assert_eq!(rows[0].0, "cr-c");
    assert_eq!(rows[1].0, "cr-b");
    let all = list_memories(&memories, 10);
    assert_eq!(all.len(), 3);
    assert_eq!(all[2].0, "cr-a");
}

#[test]
fn sort_keeps_store_order_between_equal_timestamps() {
    let memories = vec![
        mem("cr-a", "2024-01-01T00:00:00.000Z", "first written"),
        mem("cr-b", "2024-01-01T00:00:00.000Z", "second written"),
    ];
    let sorted = sort_memories_desc(&memories);
    assert_eq!(sorted[0].id, "cr-a");
    assert_eq!(sorted[1].id, "cr-b");
}

#[test]
fn find_memories_is_case_insensitive_and_limited() {
    let memories = vec![
        mem("cr-a", "t1", "Fix the CSV parser"),
        mem("cr-b", "t2", "unrelated note"),
        mem("cr-c", "t3", "csv quoting handled"),
    ];
    let rows = find_memories(&memories, "CSV", 10);
    assert_eq!(rows.len(), 2);
    assert_eq!(rows[0].0, "cr-c");
    assert_eq!(rows[1].0, "cr-a");
    let limited = find_memories(&memories, "CSV", 1);
    assert_eq!(limited.len(), 1);
    assert_eq!(limited[0].0, "cr-c");
}

#[test]
fn latest_picks_newest_timestamp() {
    let memories = vec![mem("cr-a", "t1", "one"), mem("cr-b", "t3", "two"), mem("cr-c", "t2", "x")];
    let latest = latest_memory(&memories).unwrap();
    assert_eq!(latest.id, "cr-b");
    assert!(latest_memory(&Vec::new()).is_none());
    assert!(latest_handoff(&Vec::new()).is_none());
}

fn fifteen_memories() -> Vec<MemoryRecord> {
    // Store order oldest-first: ts00 .. ts14; newest-first index 0 is ts14.
    (0..15).map(|i| mem(&format!("cr-m{:02}", i), &format!("2024-01-01T00:00:{:02}.000Z", i), "note")).collect()
}

#[test]
fn first_checkpoint_windowing_caps_scope() {
    let memories = fifteen_memories();
    let handoffs = Vec::new();
    let h = mark_handoff(
        &memories,
        &handoffs,
        10,
        "2024-01-01T00:01:00.000Z".to_string(),
        ".".to_string(),
        None,
        None,
    )
    .unwrap();
    // Newest-first indices 0..14 are cr-m14 .. cr-m00; index 10 is cr-m04.
    assert_eq!(h.to_memory_id, "cr-m14");
    assert_eq!(h.from_memory_id.as_deref(), Some("cr-m04"));
    assert_eq!(h.suggested_window, 10);
    let mut stored = Vec::new();
    stored.push(h);
    let outcome = open_handoff(&memories, &stored, None, None).unwrap();
    assert_eq!(outcome.total, 10);
    assert_eq!(outcome.shown, 10);
    assert_eq!(outcome.slice.len(), 10);
    assert_eq!(outcome.slice[0].id, "cr-m14");
    assert_eq!(outcome.slice[9].id, "cr-m05");
}

#[test]
fn first_checkpoint_with_few_memories_covers_from_start() {
    let memories = vec![mem("cr-a", "t1", "one"), mem("cr-b", "t2", "two")];
    let handoffs = Vec::new();
    let h = mark_handoff(&memories, &handoffs, 10, "t3".to_string(), ".".to_string(), None, None)
        .unwrap();
    assert_eq!(h.from_memory_id, None);
    assert_eq!(h.to_memory_id, "cr-b");
}

#[test]
fn marking_twice_without_new_memories_fails() {
    let memories = fifteen_memories();
    let handoffs = Vec::new();
    let h1 = mark_handoff(
        &memories,
        &handoffs,
        10,
        "2024-01-01T00:01:00.000Z".to_string(),
        ".".to_string(),
        None,
        None,
    )
    .unwrap();
    let stored = vec![h1.clone()];
    let again = mark_handoff(
        &memories,
        &stored,
        10,
        "2024-01-01T00:02:00.000Z".to_string(),
        ".".to_string(),
        None,
        None,
    );
    assert_eq!(again.err(), Some(Error::NoNewMemories));

    // After one more note, the second mark chains from the first one's target.
    let mut grown = memories.clone();
    grown.push(mem("cr-m15", "2024-01-01T00:03:00.000Z", "newer"));
    let h2 = mark_handoff(
        &grown,
        &stored,
        10,
        "2024-01-01T00:04:00.000Z".to_string(),
        ".".to_string(),
        None,
        None,
    )
    .unwrap();
    assert_eq!(h2.from_memory_id.as_deref(), Some(h1.to_memory_id.as_str()));
    assert_eq!(h2.to_memory_id, "cr-m15");
}

#[test]
fn mark_rejects_zero_window_and_empty_store() {
    let memories = fifteen_memories();
    let none: Vec<MemoryRecord> = Vec::new();
    let handoffs = Vec::new();
    let r = mark_handoff(&memories, &handoffs, 0, "t".to_string(), ".".to_string(), None, None);
    assert_eq!(r.err(), Some(Error::WindowZero));
    let r = mark_handoff(&none, &handoffs, 10, "t".to_string(), ".".to_string(), None, None);
    assert_eq!(r.err(), Some(Error::NoMemories));
}

#[test]
fn open_with_large_limit_shows_whole_slice() {
    let memories = fifteen_memories();
    let handoffs = Vec::new();
    let h = mark_handoff(
        &memories,
        &handoffs,
        10,
        "2024-01-01T00:01:00.000Z".to_string(),
        ".".to_string(),
        None,
        None,
    )
    .unwrap();
    let stored = vec![h];
    let outcome = open_handoff(&memories, &stored, None, Some(100)).unwrap();
    assert_eq!(outcome.total, 10);
    assert_eq!(outcome.shown, outcome.total);
}

#[test]
fn open_with_small_override_truncates_shown_count() {
    let memories = fifteen_memories();
    let handoffs = Vec::new();
    let h = mark_handoff(
        &memories,
        &handoffs,
        10,
        "2024-01-01T00:01:00.000Z".to_string(),
        ".".to_string(),
        None,
        None,
    )
    .unwrap();
    let stored = vec![h];
    let outcome = open_handoff(&memories, &stored, None, Some(3)).unwrap();
    assert_eq!(outcome.total, 10);
    assert_eq!(outcome.shown, 3);
    assert_eq!(outcome.slice.len(), 10);
}

#[test]
fn open_fails_without_handoffs_or_target() {
    let memories = fifteen_memories();
    let empty: Vec<crumbs::records::HandoffRecord> = Vec::new();
    let r = open_handoff(&memories, &empty, None, None);
    assert_eq!(r.err(), Some(Error::NoHandoffs));

    let dangling = crumbs::records::HandoffRecord {
        id: "hf-xxxx".to_string(),
        ts_utc: "t9".to_string(),
        from_memory_id: None,
        to_memory_id: "cr-gone".to_string(),
        suggested_window: 10,
        cwd: ".".to_string(),
        git_branch: None,
        git_head: None,
    };
    let stored = vec![dangling];
    let r = open_handoff(&memories, &stored, None, None);
    assert_eq!(r.err(), Some(Error::HandoffTargetMissing));
}

#[test]
fn open_resolves_checkpoint_prefixes() {
    let memories = fifteen_memories();
    let mk = |id: &str, ts: &str| crumbs::records::HandoffRecord {
        id: id.to_string(),
        ts_utc: ts.to_string(),
        from_memory_id: None,
        to_memory_id: "cr-m14".to_string(),
        suggested_window: 5,
        cwd: ".".to_string(),
        git_branch: None,
        git_head: None,
    };
    let stored = vec![mk("hf-ab12", "t1"), mk("hf-ab13", "t2")];
    assert_eq!(resolve_handoff(&stored, "ab1").err(), Some(Error::Ambiguous));
    assert_eq!(resolve_handoff(&stored, "zz").err(), Some(Error::NotFound));
    let outcome = open_handoff(&memories, &stored, Some("ab12"), None).unwrap();
    assert_eq!(outcome.handoff.id, "hf-ab12");
    // Without a named checkpoint, the newest one is opened.
    let outcome = open_handoff(&memories, &stored, None, None).unwrap();
    assert_eq!(outcome.handoff.id, "hf-ab13");
}

#[test]
fn timestamp_wrapper_returns_something() {
    let ts = crumbs::clock::now_timestamp();
    assert!(!ts.is_empty());
}

#[test]
fn duplicate_memory_rows_prefer_most_recent() {
    // Two rows sharing one id break the uniqueness invariant; the defensive
    // fallback shows the most recent of them by timestamp.
    let mut older = mem("cr-dup1", "2024-01-01T00:00:01.000Z", "older");
    older.kind = "what".to_string();
    let newer = mem("cr-dup1", "2024-01-01T00:00:03.000Z", "newer");
    let middle = mem("cr-dup1", "2024-01-01T00:00:02.000Z", "middle");
    let memories = vec![older, newer, middle];
    let (_id, _kind, text, ts, _cwd, _b, _h) = show_memory(&memories, "cr-dup1").unwrap();
    assert_eq!(text, "newer");
    assert_eq!(ts, "2024-01-01T00:00:03.000Z");
}

#[test]
fn duplicate_handoff_rows_prefer_most_recent() {
    let memories = vec![mem("cr-m0", "2024-01-01T00:00:00.000Z", "note")];
    let mk = |ts: &str, window: usize| crumbs::records::HandoffRecord {
        id: "hf-dup1".to_string(),
        ts_utc: ts.to_string(),
        from_memory_id: None,
        to_memory_id: "cr-m0".to_string(),
        suggested_window: window,
        cwd: ".".to_string(),
        git_branch: None,
        git_head: None,
    };
    // The most recent row comes back whatever its position in the store.
    let stored = vec![mk("2024-01-01T00:01:00.000Z", 7), mk("2024-01-01T00:00:30.000Z", 3)];
    let h = resolve_handoff(&stored, "hf-dup1").unwrap();
    assert_eq!(h.suggested_window, 7);
    let outcome = open_handoff(&memories, &stored, Some("dup1"), None).unwrap();
    assert_eq!(outcome.handoff.suggested_window, 7);
}

#[test]
fn trailing_newlines_are_trimmed() {
    assert_eq!(crumbs::text::trim_trailing_newlines("note text\n"), "note text");
    assert_eq!(crumbs::text::trim_trailing_newlines("note text\r\n\n"), "note text");
    assert_eq!(crumbs::text::trim_trailing_newlines("untouched"), "untouched");
    assert_eq!(crumbs::text::trim_trailing_newlines("\n\r\n"), "");
    assert_eq!(crumbs::text::trim_trailing_newlines("a\nb\n"), "a\nb");
}

#[test]
fn timestamp_wrapper_shape() {
    let ts = crumbs::clock::now_timestamp();
    assert!(ts.len() >= 24);
    assert!(ts.ends_with('Z'));
}
