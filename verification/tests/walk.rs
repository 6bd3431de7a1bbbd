use oweka::engine::frontier::{
    is_git, listing_failed, record_entry, route_directory, EntryProbe, FrontierState, NextStep,
    Route, WalkItem, WorkerStep,
};
use oweka::engine::{sizing_events, ScanEvent, SizeReport};
use oweka::location::{Location, Part};
use oweka::matcher::Artifact;
use oweka::registry::Builtin;
use oweka::ui::format::home_relative;
use oweka::ui::view::{path_column_width, scrolled_start, spinner_frame, window_end};
use oweka::walker::{
    classify_entry, keep_visit, listing_unreadable, EntryAction, TakeStep, WalkPool,
};

fn location(path: &str) -> Location {
    let mut parts = vec![Part::Root];
    for segment in path.split('/') {
        if !segment.is_empty() {
            parts.push(Part::Named(segment.as_bytes().to_vec()));
        }
    }
    Location::from_parts(parts)
}

fn dir_of(item: &WalkItem) -> Location {
    match item {
        WalkItem::Dir(d) => d.clone(),
        WalkItem::WalkError { path, .. } => panic!("expected a directory, saw an error at {path:?}"),
    }
}

#[test]
fn frontier_hands_out_root_then_listings_in_order() {
    let mut state = FrontierState::new(location("/r"));
    let first = match state.next(false) {
        NextStep::Item(item) => dir_of(&item),
        _ => panic!("expected the root"),
    };
    assert!(first.same(&location("/r")));
    assert!(matches!(state.next(false), NextStep::Finished));
    assert!(state.done);

    let mut state = FrontierState::new(location("/r"));
    let _ = state.next(false);
    assert!(state.expand(location("/r"), false));
    assert!(matches!(state.next(false), NextStep::Wait));
    let dir = match state.claim_work(false) {
        WorkerStep::Expand(d) => d,
        _ => panic!("expected work"),
    };
    assert_eq!(state.active, 1);
    assert!(matches!(state.claim_work(false), WorkerStep::Wait));
    let mut found = Vec::new();
    record_entry(&mut found, &dir, EntryProbe::Entry { name: b"b".to_vec(), is_dir: true });
    record_entry(&mut found, &dir, EntryProbe::Entry { name: b"file".to_vec(), is_dir: false });
    record_entry(&mut found, &dir, EntryProbe::Unreadable { reason: String::from("eio") });
    record_entry(&mut found, &dir, EntryProbe::TypeUnknown { name: b"c".to_vec(), reason: String::from("x") });
    record_entry(&mut found, &dir, EntryProbe::Entry { name: b"a".to_vec(), is_dir: true });
    assert_eq!(found.len(), 4);
    state.complete_work(found);
    assert_eq!(state.active, 0);
    let mut seen = Vec::new();
    loop {
        match state.next(false) {
            NextStep::Item(WalkItem::Dir(d)) => seen.push(d),
            NextStep::Item(WalkItem::WalkError { path, .. }) => seen.push(path),
            NextStep::Finished => break,
            NextStep::Wait => panic!("nothing is under way"),
        }
    }
    assert_eq!(seen, vec![location("/r/b"), location("/r"), location("/r/c"), location("/r/a")]);
}

#[test]
fn abort_ends_the_walk_and_ignores_expansion() {
    let mut state = FrontierState::new(location("/r"));
    assert!(matches!(state.next(true), NextStep::Finished));
    assert!(state.done);
    assert!(!state.expand(location("/r/x"), false));
    assert!(matches!(state.claim_work(false), WorkerStep::Exit));
    let mut other = FrontierState::new(location("/r"));
    assert!(!other.expand(location("/r/x"), true));
    other.shut_down();
    assert!(matches!(other.claim_work(false), WorkerStep::Exit));
}

#[test]
fn unlistable_directory_is_one_error() {
    let items = listing_failed(&location("/r/locked"), String::from("denied"));
    assert_eq!(items.len(), 1);
    match &items[0] {
        WalkItem::WalkError { path, reason } => {
            assert_eq!(path, &location("/r/locked"));
            assert_eq!(reason, "denied");
        }
        other => panic!("expected an error, saw {other:?}"),
    }
}

#[test]
fn claimed_directories_are_emitted_and_git_pruned() {
    match route_directory(location("/r/node_modules"), Some(Builtin::NodeModules)) {
        Route::Emit(a) => {
            assert_eq!(a, Artifact { matcher_id: "node_modules", path: location("/r/node_modules") })
        }
        _ => panic!("expected an artifact"),
    }
    assert!(matches!(route_directory(location("/r/.git"), None), Route::Prune));
    assert!(matches!(route_directory(location("/r/src"), None), Route::Expand(_)));
    assert!(is_git(&location("/.git")));
    assert!(!is_git(&location("/.gitignore")));
}

#[test]
fn tallies_report_errors_then_size() {
    let mut report = SizeReport::new();
    report.record(&location("/a/x"), String::from("denied"));
    report.add_file(15, Some(8));
    let artifact = Artifact { matcher_id: "node_modules", path: location("/a") };
    let events = sizing_events(artifact.clone(), &report);
    assert_eq!(events.len(), 2);
    assert!(matches!(&events[0], ScanEvent::WalkError { reason, .. } if reason == "denied"));
    match &events[1] {
        ScanEvent::Sized { artifact: a, bytes, last_modified } => {
            assert_eq!(a, &artifact);
            assert_eq!(*bytes, 15);
            assert_eq!(*last_modified, Some(8));
        }
        other => panic!("expected Sized, saw {other:?}"),
    }
}

#[test]
fn pool_takes_last_in_and_wakes_when_needed() {
    let mut pool = WalkPool::rooted_at(&location("/r"));
    let root = match pool.take() {
        TakeStep::Dir(d) => d,
        _ => panic!("expected the root"),
    };
    assert!(root.same(&location("/r")));
    assert!(matches!(pool.take(), TakeStep::Wait));
    let mut accepted = vec![location("/r/a"), location("/r/b")];
    assert!(pool.replenish(&mut accepted));
    assert!(accepted.is_empty());
    match pool.take() {
        TakeStep::Dir(d) => assert!(d.same(&location("/r/b"))),
        _ => panic!("expected a directory"),
    }
    let mut none = Vec::new();
    assert!(!pool.replenish(&mut none));
    let _ = pool.take();
    assert!(pool.replenish(&mut none));
    assert!(matches!(pool.take(), TakeStep::Finished));
}

#[test]
fn entries_are_classified() {
    let dir = location("/r");
    assert!(matches!(classify_entry(&dir, EntryProbe::Entry { name: b"f".to_vec(), is_dir: false }), EntryAction::Skip));
    match classify_entry(&dir, EntryProbe::Entry { name: b"d".to_vec(), is_dir: true }) {
        EntryAction::Visit(p) => assert_eq!(p, location("/r/d")),
        _ => panic!("expected a visit"),
    }
    match classify_entry(&dir, EntryProbe::Unreadable { reason: String::from("e") }) {
        EntryAction::Error { path, .. } => assert_eq!(path, dir),
        _ => panic!("expected an error"),
    }
}

#[test]
fn table_layout_arithmetic() {
    assert_eq!(path_column_width(100), 60);
    assert_eq!(path_column_width(40), 0);
    assert_eq!(path_column_width(10), 0);
    assert_eq!(scrolled_start(0, 10, Some(3), 5), 0);
    assert_eq!(scrolled_start(0, 10, Some(7), 5), 3);
    assert_eq!(scrolled_start(6, 10, Some(2), 5), 2);
    assert_eq!(scrolled_start(50, 10, None, 5), 9);
    assert_eq!(scrolled_start(0, 10, Some(4), 0), 4);
    assert_eq!(window_end(3, 5, 10), 8);
    assert_eq!(window_end(8, 5, 10), 10);
}

#[test]
fn strip_prefix_follows_components() {
    let path = location("/home/u/p/node_modules");
    let rest = path.strip_prefix(&location("/home/u")).unwrap();
    assert_eq!(rest, Location::from_parts(vec![Part::Named(b"p".to_vec()), Part::Named(b"node_modules".to_vec())]));
    assert!(path.strip_prefix(&location("/home/us")).is_none());
    assert!(path.strip_prefix(&path).unwrap().parts().is_empty());
    assert!(location("/home").strip_prefix(&location("/home/u")).is_none());
}

#[test]
fn spinner_turns_every_fifth_of_a_second() {
    assert_eq!(spinner_frame(0), '|');
    assert_eq!(spinner_frame(199), '|');
    assert_eq!(spinner_frame(200), '/');
    assert_eq!(spinner_frame(400), '-');
    assert_eq!(spinner_frame(600), '\\');
    assert_eq!(spinner_frame(800), '|');
}

#[test]
fn an_ended_walk_stays_ended() {
    let mut state = FrontierState::new(location("/r"));
    assert!(matches!(state.next(false), NextStep::Item(_)));
    assert!(matches!(state.next(false), NextStep::Finished));
    for _ in 0..3 {
        assert!(!state.expand(location("/r/late"), false));
        assert!(matches!(state.claim_work(false), WorkerStep::Exit));
        assert!(matches!(state.next(false), NextStep::Finished));
        state.shut_down();
    }
    assert!(state.items.is_empty() && state.work.is_empty() && state.active == 0);
}

#[test]
fn a_listing_keeps_exactly_the_visits_the_visitor_kept() {
    let dir = location("/r");
    let mut accepted = vec![location("/earlier")];
    let probes = [
        (EntryProbe::Entry { name: b"a".to_vec(), is_dir: true }, true),
        (EntryProbe::Entry { name: b"file".to_vec(), is_dir: false }, true),
        (EntryProbe::Entry { name: b"b".to_vec(), is_dir: true }, false),
        (EntryProbe::TypeUnknown { name: b"odd".to_vec(), reason: String::from("gone") }, true),
        (EntryProbe::Entry { name: b"c".to_vec(), is_dir: true }, true),
    ];
    for (probe, answer) in probes {
        let action = classify_entry(&dir, probe);
        keep_visit(&mut accepted, action, answer);
    }
    let expected = ["/earlier", "/r/a", "/r/c"];
    assert_eq!(accepted.len(), expected.len());
    for (kept, want) in accepted.iter().zip(expected) {
        assert!(kept.same(&location(want)));
    }
}

#[test]
fn an_unreadable_directory_is_one_problem_at_it() {
    match listing_unreadable(&location("/r/locked"), String::from("denied")) {
        EntryAction::Error { path, reason } => {
            assert!(path.same(&location("/r/locked")));
            assert_eq!(reason, "denied");
        }
        _ => panic!("expected a problem"),
    }
}

#[test]
fn paths_in_home_start_at_tilde() {
    let home = location("/home/u");
    let shown = home_relative(&location("/home/u/code/target"), Some(&home));
    assert_eq!(shown.parts().len(), 3);
    assert!(matches!(&shown.parts()[0], Part::Named(n) if n.as_slice() == b"~"));
    let home_itself = home_relative(&home, Some(&home));
    assert_eq!(home_itself.parts().len(), 1);
    assert!(home_relative(&location("/srv/x"), Some(&home)).same(&location("/srv/x")));
    assert!(home_relative(&location("/home/uu"), Some(&home)).same(&location("/home/uu")));
    assert!(home_relative(&location("/home/u/x"), None).same(&location("/home/u/x")));
}
