use oweka::engine::{DeleteOutcome, DeleteResult, ScanEvent, SizeReport};
use oweka::location::{Location, Part};
use oweka::matcher::Artifact;
use oweka::ui::app::App;
use oweka::ui::{handle_key, key_action, on_input, Input, Key, KeyAction};

fn location(path: &str) -> Location {
    let mut parts = Vec::new();
    if path.starts_with('/') {
        parts.push(Part::Root);
    }
    for segment in path.split('/') {
        if !segment.is_empty() {
            parts.push(Part::Named(segment.as_bytes().to_vec()));
        }
    }
    Location::from_parts(parts)
}

fn artifact(matcher_id: &'static str, name: &str) -> Artifact {
    Artifact {
        matcher_id,
        path: location(name),
    }
}

fn streaming_app() -> App {
    let mut app = App::new(location("/root"));
    app.apply(ScanEvent::Found {
        artifact: artifact("node_modules", "/root/a"),
    });
    app.apply(ScanEvent::Found {
        artifact: artifact("node_modules", "/root/b"),
    });
    app.apply(ScanEvent::Sized {
        artifact: artifact("node_modules", "/root/b"),
        bytes: 2048,
        last_modified: None,
    });
    app
}

fn row_paths(app: &App) -> Vec<Location> {
    app.rows().iter().map(|row| row.artifact.path().duplicate()).collect()
}

fn same_paths(app: &App, expected: &[&str]) -> bool {
    let paths = row_paths(app);
    paths.len() == expected.len()
        && paths.iter().zip(expected).all(|(p, e)| p.same(&location(e)))
}

#[test]
fn selection_stays_pinned_while_streaming() {
    let mut app = streaming_app();
    assert_eq!(app.selected_index(), Some(0));
    app.move_cursor(1);
    assert_eq!(app.selected_index(), Some(0));
}

#[test]
fn cursor_moves_and_clamps_after_done() {
    let mut app = streaming_app();
    app.apply(ScanEvent::Done);
    app.move_cursor(1);
    assert_eq!(app.selected_index(), Some(1));
    app.move_cursor(-5);
    assert_eq!(app.selected_index(), Some(0));
}

#[test]
fn sized_rows_come_first_largest_first() {
    let app = streaming_app();
    assert!(same_paths(&app, &["/root/b", "/root/a"]));
    assert_eq!(app.rows()[0].bytes, Some(2048));
    assert_eq!(app.rows()[1].bytes, None);
}

#[test]
fn equal_sizes_order_by_path_and_unsized_by_find_order() {
    let mut app = App::new(location("/r"));
    for name in ["/r/z", "/r/y", "/r/x-1", "/r/x/1"] {
        app.apply(ScanEvent::Found { artifact: artifact("node_modules", name) });
    }
    assert!(same_paths(&app, &["/r/z", "/r/y", "/r/x-1", "/r/x/1"]));
    for name in ["/r/x-1", "/r/x/1"] {
        app.apply(ScanEvent::Sized { artifact: artifact("node_modules", name), bytes: 7, last_modified: Some(3) });
    }
    // components compare one by one: `x` comes before `x-1`
    assert!(same_paths(&app, &["/r/x/1", "/r/x-1", "/r/z", "/r/y"]));
    assert_eq!(app.rows()[0].last_modified, Some(3));
}

#[test]
fn duplicate_finds_and_unknown_sizes_are_ignored() {
    let mut app = streaming_app();
    app.apply(ScanEvent::Found { artifact: artifact("target", "/root/a") });
    app.apply(ScanEvent::Sized { artifact: artifact("node_modules", "/root/c"), bytes: 1, last_modified: None });
    assert!(same_paths(&app, &["/root/b", "/root/a"]));
    assert_eq!(app.total_bytes(), 2048);
}

#[test]
fn errors_and_done_are_tallied() {
    let mut app = streaming_app();
    assert!(!app.is_done());
    app.apply(ScanEvent::WalkError { path: location("/root/locked"), reason: String::from("denied") });
    assert_eq!(app.error_count(), 1);
    app.apply(ScanEvent::Done);
    assert!(app.is_done());
    assert!(!app.is_empty());
    assert!(app.root().same(&location("/root")));
}

#[test]
fn keys_quit_or_move() {
    let mut app = streaming_app();
    app.apply(ScanEvent::Done);
    assert!(handle_key(&mut app, Key::Char('q'), false));
    assert!(handle_key(&mut app, Key::Char('c'), true));
    assert!(!handle_key(&mut app, Key::Char('c'), false));
    assert!(!handle_key(&mut app, Key::Down, false));
    assert_eq!(app.selected_index(), Some(1));
    assert!(!handle_key(&mut app, Key::Char('k'), false));
    assert_eq!(app.selected_index(), Some(0));
    assert!(!on_input(&mut app, Input::Key { key: Key::Char('q'), ctrl: false, release: true }));
    assert!(!on_input(&mut app, Input::Other));
    assert!(on_input(&mut app, Input::Key { key: Key::Char('q'), ctrl: false, release: false }));
}

#[test]
fn table_order_does_not_depend_on_event_order() {
    let events = |order: &[usize]| {
        let all = [
            ScanEvent::Found { artifact: artifact("node_modules", "/r/a") },
            ScanEvent::Found { artifact: artifact("node_modules", "/r/b") },
            ScanEvent::Found { artifact: artifact("node_modules", "/r/c") },
        ];
        let mut app = App::new(location("/r"));
        let mut pending: Vec<Option<ScanEvent>> = all.into_iter().map(Some).collect();
        for &i in order {
            app.apply(pending[i].take().unwrap());
        }
        for (name, bytes) in [("/r/a", 5), ("/r/b", 9), ("/r/c", 5)] {
            app.apply(ScanEvent::Sized { artifact: artifact("node_modules", name), bytes, last_modified: None });
        }
        row_paths(&app)
    };
    let first = events(&[0, 1, 2]);
    let second = events(&[2, 0, 1]);
    assert_eq!(first, second);
    assert!(first[0].same(&location("/r/b")));
    assert!(first[1].same(&location("/r/a")));
}

#[test]
fn space_and_enter_ask_to_delete_and_o_to_open_the_highlighted_folder() {
    let mut app = streaming_app();
    app.apply(ScanEvent::Done);
    app.move_cursor(1);
    for key in [Key::Char(' '), Key::Enter] {
        match key_action(&app, key) {
            Some(KeyAction::Delete(artifact)) => {
                assert!(artifact.path.same(&location("/root/a")));
                assert_eq!(artifact.matcher_id, "node_modules");
            }
            other => panic!("expected a deletion, got {other:?}"),
        }
        assert!(!handle_key(&mut app, key, false));
        assert_eq!(app.selected_index(), Some(1));
    }
    match key_action(&app, Key::Char('o')) {
        Some(KeyAction::Open(path)) => assert!(path.same(&location("/root/a"))),
        other => panic!("expected opening, got {other:?}"),
    }
    assert!(key_action(&app, Key::Char('x')).is_none());
    assert!(key_action(&app, Key::Down).is_none());
    let empty = App::new(location("/root"));
    assert!(key_action(&empty, Key::Enter).is_none());
    assert!(key_action(&empty, Key::Char('o')).is_none());
}

#[test]
fn deleted_rows_leave_and_the_selection_follows() {
    let mut app = streaming_app();
    app.apply(ScanEvent::Done);
    app.move_cursor(1);
    app.settle_deletion(DeleteResult {
        artifact: artifact("node_modules", "/root/a"),
        outcome: DeleteOutcome::Deleted,
        rescan: None,
    });
    assert!(same_paths(&app, &["/root/b"]));
    assert_eq!(app.selected_index(), Some(0));
    app.remove_row(&location("/root/elsewhere"));
    assert!(same_paths(&app, &["/root/b"]));
    app.remove_row(&location("/root/b"));
    assert!(app.is_empty());
    assert_eq!(app.selected_index(), None);
    assert_eq!(app.total_bytes(), 0);
}

#[test]
fn failed_deletion_keeps_the_row_with_what_is_left() {
    let mut app = streaming_app();
    let mut report = SizeReport::new();
    report.add_file(4096, Some(11));
    app.settle_deletion(DeleteResult {
        artifact: artifact("node_modules", "/root/a"),
        outcome: DeleteOutcome::IoFailed(String::from("permission denied")),
        rescan: Some(report),
    });
    assert!(same_paths(&app, &["/root/a", "/root/b"]));
    assert_eq!(app.rows()[0].bytes, Some(4096));
    assert_eq!(app.rows()[0].last_modified, Some(11));
    assert_eq!(app.total_bytes(), 4096 + 2048);
    app.settle_deletion(DeleteResult {
        artifact: artifact("node_modules", "/root/b"),
        outcome: DeleteOutcome::NotFound,
        rescan: None,
    });
    assert!(same_paths(&app, &["/root/a", "/root/b"]));
}

#[test]
fn a_path_found_twice_is_listed_once() {
    let mut app = App::new(location("/root"));
    app.apply(ScanEvent::Found { artifact: artifact("node_modules", "/root/a") });
    app.apply(ScanEvent::Found { artifact: artifact("target", "/root/a") });
    assert_eq!(app.rows().len(), 1);
    assert_eq!(app.rows()[0].artifact.matcher_id, "node_modules");
    assert_eq!(app.rows()[0].sequence, 0);
    app.apply(ScanEvent::Found { artifact: artifact("target", "/root/b") });
    assert_eq!(app.rows()[1].sequence, 1);
    assert_eq!(app.next_sequence(), 2);
}
