use scratchpad::ledger::{Ledger, Line};
use scratchpad::prefs::FontSize;
use scratchpad::state::Scratchpad;

fn line(text: &str) -> Line {
    Line { version: 0, text: text.to_string() }
}

fn pad_from(entries: Vec<(usize, Line)>) -> Scratchpad {
    let ledger = Ledger::from_sorted_entries(entries).expect("entries are sorted");
    Scratchpad::new(ledger)
}

fn snapshot(pad: &Scratchpad) -> Vec<(usize, usize, String)> {
    let lines = pad.lines();
    let mut out = Vec::new();
    for k in 0..lines.len() {
        let (id, version, text) = lines.entry_at(k);
        out.push((id, version, text.clone()));
    }
    out
}

#[test]
fn remove_then_undo_then_redo() {
    let mut pad = pad_from(vec![(0, line("a")), (1, line("b"))]);
    pad.remove_line(1);
    assert_eq!(snapshot(&pad), vec![(0, 0, "a".to_string())]);
    assert!(pad.undo());
    assert_eq!(
        snapshot(&pad),
        vec![(0, 0, "a".to_string()), (1, 0, "b".to_string())]
    );
    assert!(pad.redo());
    assert_eq!(snapshot(&pad), vec![(0, 0, "a".to_string())]);
}

#[test]
fn edit_then_undo_then_redo() {
    let mut pad = pad_from(vec![(0, line("a"))]);
    assert!(pad.edit_line(0, "x"));
    assert_eq!(snapshot(&pad), vec![(0, 1, "x".to_string())]);
    assert!(pad.undo());
    assert_eq!(snapshot(&pad), vec![(0, 0, "a".to_string())]);
    assert!(pad.redo());
    assert_eq!(snapshot(&pad), vec![(0, 1, "x".to_string())]);
}

#[test]
fn clear_all_round_trip() {
    let mut pad = pad_from(vec![(0, line("a")), (1, line("b"))]);
    assert!(pad.edit_line(1, "c"));
    pad.clear_all();
    assert_eq!(pad.line_count(), 0);
    assert!(pad.undo());
    assert_eq!(
        snapshot(&pad),
        vec![(0, 0, "a".to_string()), (1, 1, "c".to_string())]
    );
    assert!(pad.redo());
    assert_eq!(pad.line_count(), 0);
}

#[test]
fn n_undos_restore_and_n_redos_replay() {
    let mut pad = pad_from(vec![(0, line("seed"))]);
    let before = snapshot(&pad);

    let id = pad.add_line("two".to_string());
    assert_eq!(id, 1);
    assert!(pad.edit_line(0, "uno"));
    pad.remove_line(1);
    pad.clear_all();
    let after = snapshot(&pad);
    assert!(after.is_empty());

    for _ in 0..4 {
        assert!(pad.undo());
    }
    assert_eq!(snapshot(&pad), before);
    assert!(!pad.undo());

    for _ in 0..4 {
        assert!(pad.redo());
    }
    assert_eq!(snapshot(&pad), after);
    assert!(!pad.redo());
}

#[test]
fn new_mutation_clears_redos() {
    let mut pad = pad_from(vec![(0, line("a"))]);
    assert!(pad.edit_line(0, "x"));
    assert!(pad.undo());
    assert!(pad.can_redo());
    assert!(pad.edit_line(0, "y"));
    assert!(!pad.can_redo());
    assert!(!pad.redo());
    assert_eq!(snapshot(&pad), vec![(0, 1, "y".to_string())]);
}

#[test]
fn unchanged_edit_is_a_noop() {
    let mut pad = pad_from(vec![(0, line("a"))]);
    assert!(!pad.edit_line(0, "a"));
    assert!(!pad.edit_line(0, "  a  "));
    assert_eq!(snapshot(&pad), vec![(0, 0, "a".to_string())]);
    assert!(!pad.can_undo());
}

#[test]
fn edit_trims_incoming_text() {
    let mut pad = pad_from(vec![(0, line("a"))]);
    assert!(pad.edit_line(0, "  b  "));
    assert_eq!(snapshot(&pad), vec![(0, 1, "b".to_string())]);
}

#[test]
fn edit_to_blank_commits_empty_text() {
    let mut pad = pad_from(vec![(0, line("a"))]);
    assert!(pad.edit_line(0, "   "));
    assert_eq!(snapshot(&pad), vec![(0, 1, String::new())]);
    assert!(pad.undo());
    assert_eq!(snapshot(&pad), vec![(0, 0, "a".to_string())]);
}

#[test]
fn normalize_rekeys_and_resets_versions() {
    let loaded = Ledger::from_sorted_entries(vec![
        (3, Line { version: 2, text: "x".to_string() }),
        (7, Line { version: 5, text: "y".to_string() }),
    ])
    .expect("sorted");
    let pad = Scratchpad::new(loaded);
    assert_eq!(
        snapshot(&pad),
        vec![(0, 0, "x".to_string()), (1, 0, "y".to_string())]
    );
    assert_eq!(pad.next_id(), 2);
}

#[test]
fn normalize_is_idempotent() {
    let mut once = Ledger::from_sorted_entries(vec![
        (2, Line { version: 4, text: "x".to_string() }),
        (9, line("y")),
    ])
    .expect("sorted");
    once.normalize();
    let mut twice_pad_entries = Vec::new();
    for k in 0..once.len() {
        let (id, version, text) = once.entry_at(k);
        twice_pad_entries.push((id, version, text.clone()));
    }
    once.normalize();
    let mut after = Vec::new();
    for k in 0..once.len() {
        let (id, version, text) = once.entry_at(k);
        after.push((id, version, text.clone()));
    }
    assert_eq!(twice_pad_entries, after);
}

#[test]
fn undo_and_redo_on_empty_stacks_are_noops() {
    let mut pad = pad_from(vec![]);
    assert!(!pad.undo());
    assert!(!pad.redo());
    assert_eq!(pad.line_count(), 0);
}

#[test]
fn clear_all_on_empty_ledger_records_nothing() {
    let mut pad = pad_from(vec![]);
    pad.clear_all();
    assert!(!pad.can_undo());
}

#[test]
fn from_sorted_entries_accepts_only_ascending_ids() {
    assert!(Ledger::from_sorted_entries(vec![]).is_some());
    assert!(Ledger::from_sorted_entries(vec![(5, line("a"))]).is_some());
    assert!(Ledger::from_sorted_entries(vec![(1, line("a")), (0, line("b"))]).is_none());
    assert!(Ledger::from_sorted_entries(vec![(2, line("a")), (2, line("b"))]).is_none());
}

#[test]
fn removed_ids_are_never_reallocated() {
    let mut pad = pad_from(vec![]);
    let first = pad.add_line("a".to_string());
    assert_eq!(first, 0);
    pad.remove_line(0);
    assert!(pad.undo());
    assert_eq!(pad.next_id(), 1);
    let second = pad.add_line("b".to_string());
    assert_eq!(second, 1);
}

#[test]
fn undone_capture_restores_same_id() {
    let mut pad = pad_from(vec![]);
    let id = pad.add_line("a".to_string());
    assert_eq!(id, 0);
    assert!(pad.undo());
    assert_eq!(pad.line_count(), 0);
    assert!(pad.redo());
    assert_eq!(snapshot(&pad), vec![(0, 0, "a".to_string())]);
    assert_eq!(pad.next_id(), 1);
}

#[test]
fn explicit_empty_line_is_added_and_undoable() {
    let mut pad = pad_from(vec![(0, line("a"))]);
    let id = pad.add_empty_line();
    assert_eq!(id, 1);
    assert_eq!(
        snapshot(&pad),
        vec![(0, 0, "a".to_string()), (1, 0, String::new())]
    );
    assert!(pad.undo());
    assert_eq!(snapshot(&pad), vec![(0, 0, "a".to_string())]);
}

#[test]
fn font_size_starts_at_26() {
    assert_eq!(FontSize::default().0, 26);
}
