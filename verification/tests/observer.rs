use scratchpad::capture::{
    capture_insertion, process_batch, ChangeRecord, InsertedNode, SelectionTracker,
};
use scratchpad::ledger::Ledger;
use scratchpad::state::Scratchpad;
use scratchpad::text::normalized_eq;

fn empty_pad() -> Scratchpad {
    Scratchpad::new(Ledger::new())
}

fn texts(pad: &Scratchpad) -> Vec<String> {
    let lines = pad.lines();
    let mut out = Vec::new();
    for k in 0..lines.len() {
        let (_, _, text) = lines.entry_at(k);
        out.push(text.clone());
    }
    out
}

fn paragraph(text: &str) -> InsertedNode {
    InsertedNode { is_paragraph: true, text: text.to_string() }
}

#[test]
fn capture_commits_trimmed_text() {
    let mut pad = empty_pad();
    let id = capture_insertion(&mut pad, "  hello  ", "");
    assert_eq!(id, Some(0));
    assert_eq!(texts(&pad), vec!["hello".to_string()]);
    assert_eq!(pad.lines().version_at(0), 0);
    assert!(pad.undo());
    assert_eq!(pad.line_count(), 0);
    assert!(pad.redo());
    assert_eq!(texts(&pad), vec!["hello".to_string()]);
}

#[test]
fn blank_capture_adds_no_line() {
    let mut pad = empty_pad();
    assert_eq!(capture_insertion(&mut pad, "", ""), None);
    assert_eq!(capture_insertion(&mut pad, "   \t\n  ", "anything"), None);
    assert_eq!(pad.line_count(), 0);
    assert!(!pad.can_undo());
}

#[test]
fn selection_echo_is_suppressed() {
    let mut pad = empty_pad();
    let r = capture_insertion(&mut pad, "dup\r\ntext", "dup\ntext");
    assert_eq!(r, None);
    assert_eq!(pad.line_count(), 0);
    assert!(!pad.can_undo());
}

#[test]
fn echo_check_normalizes_all_line_endings() {
    assert!(normalized_eq("a\r\nb", "a\nb"));
    assert!(normalized_eq("a\rb", "a\nb"));
    assert!(normalized_eq("a\r\r\n\nb", "a\n\n\nb"));
    assert!(!normalized_eq("a", "b"));
    assert!(!normalized_eq("ab", "a\nb"));
}

#[test]
fn non_echo_capture_still_commits() {
    let mut pad = empty_pad();
    let r = capture_insertion(&mut pad, "fresh", "selected");
    assert_eq!(r, Some(0));
    assert_eq!(texts(&pad), vec!["fresh".to_string()]);
}

#[test]
fn batch_filters_records_and_nodes() {
    let mut pad = empty_pad();
    let records = vec![
        ChangeRecord {
            target_is_root: true,
            children_changed: true,
            added: vec![
                paragraph("one"),
                InsertedNode { is_paragraph: false, text: "skipped".to_string() },
                paragraph("   "),
                paragraph("two"),
            ],
        },
        ChangeRecord {
            target_is_root: false,
            children_changed: true,
            added: vec![paragraph("elsewhere")],
        },
        ChangeRecord {
            target_is_root: true,
            children_changed: false,
            added: vec![paragraph("attributes-only")],
        },
    ];
    let added = process_batch(&mut pad, &records, "");
    assert_eq!(added, vec![0, 1]);
    assert_eq!(texts(&pad), vec!["one".to_string(), "two".to_string()]);
}

#[test]
fn each_batched_capture_is_its_own_undo_step() {
    let mut pad = empty_pad();
    let records = vec![ChangeRecord {
        target_is_root: true,
        children_changed: true,
        added: vec![paragraph("one"), paragraph("two")],
    }];
    process_batch(&mut pad, &records, "");
    assert!(pad.undo());
    assert_eq!(texts(&pad), vec!["one".to_string()]);
    assert!(pad.undo());
    assert_eq!(pad.line_count(), 0);
}

#[test]
fn batch_suppresses_echo_of_tracked_selection() {
    let mut pad = empty_pad();
    let records = vec![ChangeRecord {
        target_is_root: true,
        children_changed: true,
        added: vec![paragraph("picked\r\nup"), paragraph("new")],
    }];
    let added = process_batch(&mut pad, &records, "picked\nup");
    assert_eq!(added, vec![0]);
    assert_eq!(texts(&pad), vec!["new".to_string()]);
}

#[test]
fn selection_tracker_follows_range_selections_only() {
    let mut tracker = SelectionTracker::new();
    assert_eq!(tracker.current(), "");
    tracker.refresh(true, "chosen words".to_string());
    assert_eq!(tracker.current(), "chosen words");
    tracker.refresh(false, "caret only".to_string());
    assert_eq!(tracker.current(), "");
}
