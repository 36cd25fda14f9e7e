use helix_view::changeset::ChangeSet;
use helix_view::document::Document;
use helix_view::lsp::{Client, ContentChangeEvent, Position, Range};
use helix_view::selection::Selection;
use helix_view::state::State;
use helix_view::syntax::{LanguageConfiguration, Loader, Syntax, SyntaxError};
use helix_view::transaction::Transaction;
use helix_view::Mode;

fn chars(s: &str) -> Vec<char> {
    s.chars().collect()
}

fn text_of(v: &[char]) -> String {
    v.iter().collect()
}

#[test]
fn changeset_to_changes() {
    let text = chars("hello");
    let mut state = State::new(text);
    state.selection = Selection::single(5, 5);
    let mut doc = Document::new(state);

    // insert

    let transaction = Transaction::insert(&doc.state, &chars(" world"));
    let old_doc = doc.state.snapshot();
    doc.apply(&transaction);
    let changes = Client::changeset_to_changes(&old_doc.doc, doc.text(), transaction.changes());

    assert_eq!(
        changes,
        vec![ContentChangeEvent {
            range: Range::new(Position::new(0, 5), Position::new(0, 5)),
            text: chars(" world"),
        }]
    );

    // delete

    let transaction = transaction.invert(&old_doc);
    let old_doc = doc.state.snapshot();
    doc.apply(&transaction);
    let changes = Client::changeset_to_changes(&old_doc.doc, doc.text(), transaction.changes());

    // line: 0-based.
    // col: 0-based, gaps between chars.
    assert_eq!(
        changes,
        vec![ContentChangeEvent {
            range: Range::new(Position::new(0, 5), Position::new(0, 11)),
            text: chars(""),
        }]
    );

    // replace

    // also tests that changes are layered, positions depend on previous changes.

    doc.state.selection = Selection::single(0, 5);
    let transaction = Transaction::change(
        &doc.state,
        vec![(0, 2, Some(chars("aei"))), (3, 5, Some(chars("ou")))],
    );
    // aeilou
    doc.apply(&transaction);
    let changes = Client::changeset_to_changes(&doc.state.doc, doc.text(), transaction.changes());

    assert_eq!(
        changes,
        vec![
            ContentChangeEvent {
                range: Range::new(Position::new(0, 0), Position::new(0, 2)),
                text: chars("aei"),
            },
            ContentChangeEvent {
                range: Range::new(Position::new(0, 4), Position::new(0, 6)),
                text: chars("ou"),
            },
        ]
    );
}

#[test]
fn apply_insert_changes_text() {
    let mut state = State::new(chars("hello"));
    state.selection = Selection::single(5, 5);
    let mut doc = Document::new(state);
    let transaction = Transaction::insert(&doc.state, &chars(" world"));
    assert!(doc.apply(&transaction));
    assert_eq!(text_of(doc.text()), "hello world");
    assert_eq!(doc.version(), 0);
}

#[test]
fn apply_out_of_range_fails_without_side_effects() {
    let mut small = Document::new(State::new(chars("abc")));
    let big_state = State::new(chars("hello"));
    let transaction = Transaction::change(&big_state, vec![(0, 5, None)]);
    assert!(!small.apply(&transaction));
    assert_eq!(text_of(small.text()), "abc");
    assert_eq!(small.version(), 0);
}

#[test]
fn compose_two_transactions_matches_sequential_application() {
    let s0 = State::new(chars("ab"));
    let t1 = Transaction::change(&s0, vec![(0, 0, Some(chars("x")))]);
    // t1: "ab" -> "xab"
    let s1 = State::new(chars("xab"));
    let t2 = Transaction::change(&s1, vec![(1, 2, Some(chars("y")))]);
    // t2: "xab" -> "xyb"
    let composed = t1.changes().compose(t2.changes());
    let direct = composed.apply(&chars("ab")).unwrap();
    assert_eq!(text_of(&direct), "xyb");

    let step1 = t1.changes().apply(&chars("ab")).unwrap();
    let step2 = t2.changes().apply(&step1).unwrap();
    assert_eq!(direct, step2);
}

#[test]
fn invert_restores_original_text() {
    let s0 = State::new(chars("hello"));
    let t = Transaction::change(&s0, vec![(0, 2, Some(chars("aei"))), (3, 5, Some(chars("ou")))]);
    let edited = t.changes().apply(&chars("hello")).unwrap();
    assert_eq!(text_of(&edited), "aeilou");
    let inv = t.changes().invert(&chars("hello"));
    let back = inv.apply(&edited).unwrap();
    assert_eq!(text_of(&back), "hello");
}

#[test]
fn undo_after_apply_restores_text_and_selection() {
    let mut state = State::new(chars("hello"));
    state.selection = Selection::single(5, 5);
    let mut doc = Document::new(state);
    let transaction = Transaction::insert(&doc.state, &chars(" world"));
    assert!(doc.apply(&transaction));
    assert_eq!(text_of(doc.text()), "hello world");
    // undo commits the pending edit, then reverts it
    assert!(doc.undo());
    assert_eq!(text_of(doc.text()), "hello");
    let primary = doc.selection().primary();
    assert_eq!((primary.anchor, primary.head), (5, 5));
    assert_eq!(doc.version(), 2);
}

#[test]
fn redo_after_undo_restores_post_edit_state() {
    let mut state = State::new(chars("hello"));
    state.selection = Selection::single(5, 5);
    let mut doc = Document::new(state);
    let transaction = Transaction::insert(&doc.state, &chars(" world"));
    assert!(doc.apply(&transaction));
    doc.append_changes_to_history();
    assert_eq!(doc.version(), 1);
    assert!(doc.undo());
    assert_eq!(text_of(doc.text()), "hello");
    assert_eq!(doc.version(), 2);
    assert!(doc.redo());
    assert_eq!(text_of(doc.text()), "hello world");
    let primary = doc.selection().primary();
    assert_eq!((primary.anchor, primary.head), (5, 5));
    assert_eq!(doc.version(), 3);
}

#[test]
fn version_moves_only_on_commit_undo_redo() {
    let mut doc = Document::new(State::new(chars("hello")));
    let t1 = Transaction::insert(&doc.state, &chars("a"));
    assert!(doc.apply(&t1));
    let t2 = Transaction::insert(&doc.state, &chars("b"));
    assert!(doc.apply(&t2));
    assert_eq!(doc.version(), 0);
    doc.append_changes_to_history();
    assert_eq!(doc.version(), 1);
    doc.append_changes_to_history();
    // empty pending change-set: a no-op
    assert_eq!(doc.version(), 1);
}

#[test]
fn undo_on_empty_history_returns_false_and_changes_nothing() {
    let mut doc = Document::new(State::new(chars("hello")));
    assert!(!doc.undo());
    assert_eq!(text_of(doc.text()), "hello");
    assert_eq!(doc.version(), 0);
    assert!(!doc.redo());
    assert_eq!(text_of(doc.text()), "hello");
    assert_eq!(doc.version(), 0);
}

#[test]
fn changeset_identity_is_empty() {
    let cs = ChangeSet::new(&chars("hello"));
    assert!(cs.is_empty());
    let applied = cs.apply(&chars("hello")).unwrap();
    assert_eq!(text_of(&applied), "hello");
}

#[test]
fn syntax_update_failures_and_recovery() {
    let mut sy = Syntax::new(&chars("ab"));
    assert!(sy.valid);
    let wrong_len = ChangeSet::new(&chars("abc"));
    assert_eq!(sy.update(&chars("abc"), &wrong_len), Err(SyntaxError::LengthMismatch));
    assert!(!sy.valid);
    let fits = ChangeSet::new(&chars("ab"));
    assert_eq!(sy.update(&chars("ab"), &fits), Err(SyntaxError::Stale));
    // a full rebuild restores trust
    sy = Syntax::new(&chars("ab"));
    assert_eq!(sy.update(&chars("ab"), &fits), Ok(()));
    assert!(sy.valid);
}

#[test]
fn syntax_follows_edits_through_document() {
    let mut doc = Document::new(State::new(chars("hello")));
    let config = LanguageConfiguration { scope: "source.rust".to_string(), file_types: vec![".rs".to_string()] };
    doc.set_language(Some(&config));
    assert_eq!(doc.language().map(|s| s.as_str()), Some("source.rust"));
    let t = Transaction::insert(&doc.state, &chars("x"));
    assert!(doc.apply(&t));
    let sy = doc.syntax.as_ref().unwrap();
    assert!(sy.valid);
    assert_eq!(text_of(&sy.text), text_of(doc.text()));
}

#[test]
fn loader_lookup_by_scope_and_file_name() {
    let loader = Loader::new(vec![
        LanguageConfiguration { scope: "source.rust".to_string(), file_types: vec![".rs".to_string()] },
        LanguageConfiguration { scope: "source.toml".to_string(), file_types: vec![".toml".to_string()] },
    ]);
    assert_eq!(loader.language_config_for_scope(&"source.toml".to_string()).unwrap().scope(), "source.toml");
    assert!(loader.language_config_for_scope(&"source.c".to_string()).is_none());
    assert_eq!(loader.language_config_for_file_name(&"main.rs".to_string()).unwrap().scope(), "source.rust");
    assert!(loader.language_config_for_file_name(&"main.py".to_string()).is_none());

    let mut doc = Document::new(State::new(chars("hi")));
    doc.set_language2(&"source.toml".to_string(), &loader);
    assert_eq!(doc.language().map(|s| s.as_str()), Some("source.toml"));
    doc.set_language2(&"source.none".to_string(), &loader);
    assert!(doc.language().is_none());
    assert!(doc.syntax.is_none());
}

#[test]
fn url_and_identifiers_from_path() {
    let mut doc = Document::new(State::new(chars("hi")));
    assert!(doc.url().is_none());
    doc.set_path(Some("/tmp/example.rs".to_string()));
    let u = doc.url().unwrap();
    assert_eq!(u.as_str(), "file:///tmp/example.rs");
    let vid = doc.versioned_identifier();
    assert_eq!(vid.version, 0);
    assert_eq!(vid.uri.as_str(), "file:///tmp/example.rs");
    assert_eq!(doc.identifier().uri.as_str(), "file:///tmp/example.rs");
}

#[test]
fn notifications_are_queued_in_order_with_versions() {
    let mut state = State::new(chars("hello"));
    state.selection = Selection::single(5, 5);
    let mut doc = Document::new(state);
    let uri = url::Url::parse("file:///tmp/example.rs").unwrap();
    doc.set_language_server(Some(Client::new(uri)));

    let t1 = Transaction::insert(&doc.state, &chars(" world"));
    assert!(doc.apply(&t1));
    doc.append_changes_to_history();
    let t2 = Transaction::change(&doc.state, vec![(0, 5, Some(chars("goodbye")))]);
    assert!(doc.apply(&t2));

    let client = doc.language_server.as_mut().unwrap();
    let pending = client.take_pending();
    assert_eq!(pending.len(), 2);
    assert_eq!(pending[0].version, 0);
    assert_eq!(
        pending[0].events,
        vec![ContentChangeEvent {
            range: Range::new(Position::new(0, 5), Position::new(0, 5)),
            text: chars(" world"),
        }]
    );
    assert_eq!(pending[1].version, 1);
    assert_eq!(
        pending[1].events,
        vec![ContentChangeEvent {
            range: Range::new(Position::new(0, 0), Position::new(0, 5)),
            text: chars("goodbye"),
        }]
    );
    assert_eq!(client.take_pending().len(), 0);
}

#[test]
fn multi_line_positions_in_events() {
    let mut state = State::new(chars("ab\ncd"));
    state.selection = Selection::single(0, 0);
    let mut doc = Document::new(state);
    // delete the d on the second line
    let t = Transaction::change(&doc.state, vec![(4, 5, None)]);
    let old_doc = doc.state.snapshot();
    assert!(doc.apply(&t));
    assert_eq!(text_of(doc.text()), "ab\nc");
    let changes = Client::changeset_to_changes(&old_doc.doc, doc.text(), t.changes());
    assert_eq!(
        changes,
        vec![ContentChangeEvent {
            range: Range::new(Position::new(1, 1), Position::new(1, 2)),
            text: chars(""),
        }]
    );
}

#[test]
fn mode_is_set_directly() {
    let mut doc = Document::new(State::new(chars("")));
    assert_eq!(doc.mode(), Mode::Normal);
    doc.mode = Mode::Insert;
    assert_eq!(doc.mode(), Mode::Insert);
    doc.mode = Mode::Goto;
    assert_eq!(doc.mode(), Mode::Goto);
}

#[test]
fn new_edit_after_undo_discards_redo_branch() {
    let mut doc = Document::new(State::new(chars("a")));
    let t1 = Transaction::insert(&doc.state, &chars("b"));
    assert!(doc.apply(&t1));
    doc.append_changes_to_history();
    assert!(doc.undo());
    assert_eq!(text_of(doc.text()), "a");
    let mut state = State::new(chars("a"));
    state.selection = Selection::single(1, 1);
    doc.set_selection(state.selection);
    let t2 = Transaction::insert(&doc.state, &chars("c"));
    assert!(doc.apply(&t2));
    doc.append_changes_to_history();
    assert_eq!(text_of(doc.text()), "ac");
    // the undone revision is gone
    assert!(!doc.redo());
    assert_eq!(text_of(doc.text()), "ac");
}

#[test]
fn map_pos_through_replacement() {
    let s0 = State::new(chars("abcde"));
    let t = Transaction::change(&s0, vec![(1, 3, Some(chars("XYZ")))]);
    // "abcde" -> "aXYZde"
    let cs = t.changes();
    assert_eq!(cs.map_pos(0), 0);
    assert_eq!(cs.map_pos(1), 1);
    // a position inside the deleted span lands at the deletion point
    assert_eq!(cs.map_pos(2), 1);
    assert_eq!(cs.map_pos(3), 4);
    assert_eq!(cs.map_pos(4), 5);
    assert_eq!(cs.map_pos(5), 6);
}
