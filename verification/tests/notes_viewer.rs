use legal_pad::notes::delete_line;
use legal_pad::notes::format_note_line;
use legal_pad::notes::line_matches;
use legal_pad::notes::parse_notes;
use legal_pad::notes::update_filtered;
use legal_pad::viewer::Action;
use legal_pad::viewer::Key;
use legal_pad::viewer::ViewerState;
use legal_pad::argparse::Cli;

#[test]
fn note_line_is_padded_exactly() {
    let line = format_note_line("2024-01-02", "idea", "remember this");
    assert_eq!(line, "[2024-01-02]   [idea]     remember this");
}

#[test]
fn long_fields_are_not_truncated() {
    let line = format_note_line("2024-01-02T10", "somethinglong", "x");
    assert_eq!(line, "[2024-01-02T10] [somethinglong] x");
}

#[test]
fn parse_notes_reverses_lines_and_strips_carriage_returns() {
    let notes = parse_notes("first\nsecond\r\nthird\n");
    assert_eq!(notes, vec!["third", "second", "first"]);
    assert_eq!(parse_notes(""), Vec::<String>::new());
    assert_eq!(parse_notes("\n"), vec![""]);
    assert_eq!(parse_notes("only"), vec!["only"]);
}

#[test]
fn delete_line_removes_only_in_range() {
    let mut notes = vec!["a".to_string(), "b".to_string(), "c".to_string()];
    assert!(delete_line(&mut notes, 1));
    assert_eq!(notes, vec!["a", "c"]);
    assert!(!delete_line(&mut notes, 5));
    assert_eq!(notes, vec!["a", "c"]);
}

#[test]
fn lexical_match_is_case_insensitive() {
    let line = format_note_line("2024-01-02", "Work", "Buy MILK today");
    assert!(line_matches(line.as_str(), "milk"));
    assert!(line_matches(line.as_str(), "work"));
    assert!(!line_matches(line.as_str(), "eggs"));
    // the timestamp is not searched
    assert!(!line_matches(line.as_str(), "2024"));
}

#[test]
fn update_filtered_keeps_matching_lines_in_order() {
    let notes = vec![
        format_note_line("2024-01-01", "general", "walk the dog"),
        format_note_line("2024-01-02", "idea", "a dog park app"),
        format_note_line("2024-01-03", "general", "pay rent"),
    ];
    let filtered = update_filtered(&notes, "dog");
    assert_eq!(filtered.len(), 2);
    assert_eq!(filtered[0], notes[0]);
    assert_eq!(filtered[1], notes[1]);
    // an empty term matches everything
    assert_eq!(update_filtered(&notes, "").len(), 3);
}

#[test]
fn viewer_starts_browsing_with_first_note_selected() {
    let s = ViewerState::start(3);
    assert!(!s.searching);
    assert!(!s.semantic);
    assert!(s.has_selection);
    assert_eq!(s.selected, 0);
    let empty = ViewerState::start(0);
    assert!(!empty.has_selection);
}

#[test]
fn viewer_arrows_stay_in_range() {
    let mut s = ViewerState::start(2);
    assert_eq!(s.step(Key::Up), Action::Redraw);
    assert_eq!(s.selected, 0);
    s.step(Key::Down);
    assert_eq!(s.selected, 1);
    s.step(Key::Down);
    assert_eq!(s.selected, 1);
    s.step(Key::Up);
    assert_eq!(s.selected, 0);
}

#[test]
fn viewer_search_mode_edits_the_term() {
    let mut s = ViewerState::start(2);
    assert_eq!(s.step(Key::Char('/')), Action::ResetFilter);
    assert!(s.searching);
    assert_eq!(s.step(Key::Char('d')), Action::Refilter);
    assert_eq!(s.step(Key::Char('s')), Action::Refilter);
    assert_eq!(s.term, vec!['d', 's']);
    assert_eq!(s.step(Key::Backspace), Action::Refilter);
    assert_eq!(s.term, vec!['d']);
    assert_eq!(s.step(Key::Esc), Action::ResetFilter);
    assert!(!s.searching);
    assert_eq!(s.term.len(), 0);
}

#[test]
fn viewer_toggles_semantic_and_deletes_selection() {
    let mut s = ViewerState::start(3);
    assert_eq!(s.step(Key::Char('s')), Action::Redraw);
    assert!(s.semantic);
    s.step(Key::Down);
    assert_eq!(s.step(Key::Char('d')), Action::Delete(1));
    s.deleted(2);
    assert_eq!(s.selected, 1);
    s.deleted(1);
    assert_eq!(s.selected, 0);
    assert_eq!(s.step(Key::Char('q')), Action::Quit);
}

#[test]
fn viewer_refilter_resets_selection_to_top() {
    let mut s = ViewerState::start(5);
    s.step(Key::Down);
    s.step(Key::Down);
    s.filtered_changed(2);
    assert!(s.has_selection);
    assert_eq!(s.selected, 0);
    s.filtered_changed(0);
    assert!(!s.has_selection);
}

#[test]
fn cli_category_defaults_to_general() {
    let with = Cli { category: Some("idea".to_string()), text: "x".to_string() };
    assert_eq!(with.category_label(), "idea");
    let without = Cli { category: None, text: "x".to_string() };
    assert_eq!(without.category_label(), "general");
}

#[test]
fn viewer_quit_and_restart_search_work_while_searching() {
    let mut s = ViewerState::start(2);
    s.step(Key::Char('/'));
    s.step(Key::Char('a'));
    // a second slash restarts the term
    assert_eq!(s.step(Key::Char('/')), Action::ResetFilter);
    assert_eq!(s.term.len(), 0);
    s.step(Key::Char('b'));
    // quitting works even while a term is being edited
    assert_eq!(s.step(Key::Char('q')), Action::Quit);
}

#[test]
fn viewer_backspace_on_empty_term_stays_empty() {
    let mut s = ViewerState::start(1);
    s.step(Key::Char('/'));
    assert_eq!(s.step(Key::Backspace), Action::Refilter);
    assert_eq!(s.term.len(), 0);
}

#[test]
fn lexical_filter_reads_only_the_category_and_content_fields() {
    // brackets inside the content end the searched span, as the viewer
    // splits the line at closing brackets
    let line = format_note_line("2024-01-01", "general", "see [chapter 3] tonight");
    assert!(line_matches(line.as_str(), "see [chapter 3"));
    assert!(!line_matches(line.as_str(), "tonight"));
}
