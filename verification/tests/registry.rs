use oweka::location::{Location, Part};
use oweka::matcher::{DeletionPolicy, Marker, Matcher};
use oweka::registry::{claim, matcher_for, Builtin, NodeModules, Target, Venv};

fn location(path: &str) -> Location {
    let mut parts = vec![Part::Root];
    for segment in path.split('/') {
        if !segment.is_empty() {
            parts.push(Part::Named(segment.as_bytes().to_vec()));
        }
    }
    Location::from_parts(parts)
}

#[test]
fn venv_confirm_carries_export_caution() {
    let venv = location("/tmp/root/.venv");
    // `pyvenv.cfg` was written into the directory
    let matcher = claim(&venv, &|marker: Marker| marker == Marker::Inside("pyvenv.cfg")).unwrap();
    assert_eq!(
        matcher.deletion_policy(),
        DeletionPolicy::Confirm(Some("Ensure dependencies are exported to requirements.txt"))
    );
}

#[test]
fn matchers_need_their_names_and_markers() {
    let present = |_: Marker| true;
    let absent = |_: Marker| false;
    assert_eq!(claim(&location("/p/node_modules"), &absent), Some(Builtin::NodeModules));
    assert_eq!(claim(&location("/p/target"), &present), Some(Builtin::Target));
    assert_eq!(claim(&location("/p/target"), &absent), None);
    assert_eq!(claim(&location("/p/venv"), &present), Some(Builtin::Venv));
    assert_eq!(claim(&location("/p/.virtualenv"), &absent), None);
    assert_eq!(claim(&location("/p/src"), &present), None);
    assert_eq!(claim(&Location::from_parts(vec![Part::Root]), &present), None);
    assert_eq!(Target.marker(), Marker::Beside("Cargo.toml"));
    assert_eq!(NodeModules.deletion_policy(), DeletionPolicy::Instant);
    assert_eq!(Venv.id(), "venv");
}

#[test]
fn matchers_are_found_by_id() {
    assert_eq!(matcher_for("node_modules"), Some(Builtin::NodeModules));
    assert_eq!(matcher_for("target"), Some(Builtin::Target));
    assert_eq!(matcher_for("venv"), Some(Builtin::Venv));
    assert_eq!(matcher_for("venv2"), None);
}
