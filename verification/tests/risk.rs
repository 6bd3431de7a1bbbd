use oweka::engine::risk::{assess, resolve, row_flagged, sensitive, sensitive_checked};

fn is_flagged(path: &str, home: Option<&str>, cwd: Option<&str>) -> bool {
    sensitive(path, home, cwd).is_some()
}

#[test]
fn home_dir_flags_sensitive_configs_and_caches() {
    let home = Some("/home/user");

    let flagged = [
        "/home/user/.config",
        "/home/user/.config/gh/hosts.yml",
        "/home/user/.local/share",
        "/home/user/.local/share/keyrings",
        "/home/user/.cache",
        "/home/user/.cache/session",
        "/home/user/.ssh",
        "/home/user/.gnupg",
        "/home/user/.bashrc",
    ];

    for path in flagged {
        assert!(
            is_flagged(path, home, None),
            "Expected '{path}' to be flagged as sensitive in home"
        );
    }
}

#[test]
fn home_dir_allows_safe_directories_and_whitelisted_package_caches() {
    let home = Some("/home/user");

    let safe = [
        "/home/user/projects/app",
        "/home/user/Documents/notes.txt",
        "/home/user/.npm",
        "/home/user/.npm/_cacache",
        "/home/user/.pnpm",
        "/home/user/.pnpm/store",
        "/home/user/projects/my-app/.git",
    ];

    for path in safe {
        assert!(
            !is_flagged(path, home, None),
            "Expected '{path}' to be allowed"
        );
    }
}

#[test]
fn relative_traversal_into_sensitive_areas_is_caught() {
    let home = Some("/home/user");
    let cwd = Some("/home/user/projects/web-app");

    let malicious = [
        "../../.config/tokens.json",
        "../../../user/.config",
        "../../.ssh/id_rsa",
        "./../../.bash_history",
    ];

    for path in malicious {
        assert!(
            is_flagged(path, home, cwd),
            "Expected traversal '{path}' from '{cwd:?}' to be caught"
        );
    }
}

#[test]
fn benign_relative_navigation_remains_safe() {
    let home = Some("/home/user");
    let cwd = Some("/home/user/projects/web-app");

    let safe = [
        ".",
        "..",
        "../api-service",
        "./node_modules",
        "../../projects/other-app",
    ];

    for path in safe {
        assert!(
            !is_flagged(path, home, cwd),
            "Expected relative path '{path}' to pass"
        );
    }
}

#[test]
fn macos_app_bundle_internals_are_flagged() {
    assert!(is_flagged(
        "/Applications/Slack.app/Contents/MacOS/Slack",
        None,
        None
    ));
    assert!(is_flagged(
        "/Users/user/Applications/App.app/Contents/Info.plist",
        None,
        None
    ));
    assert!(!is_flagged("/Applications/Slack.app", None, None));
}

#[test]
fn windows_system_directories_and_appdata() {
    assert!(is_flagged("C:/Program Files/Vendor/App", None, None));
    assert!(is_flagged(
        "c:/program files (x86)/common files",
        None,
        None
    ));

    assert!(is_flagged(
        "C:/Users/User/AppData/Roaming/Discord",
        None,
        None
    ));

    assert!(is_flagged(
        "C:/Users/User/AppData/Local/Microsoft",
        None,
        None
    ));
    assert!(!is_flagged(
        "C:/Users/User/AppData/Local/.cache",
        None,
        None
    ));
    assert!(!is_flagged("C:/Users/User/AppData/Local/.npm", None, None));
}

#[test]
fn windows_unc_shares() {
    assert!(is_flagged("//server/share/.hidden_dir/file", None, None));
    assert!(!is_flagged("//server/share/public/file.txt", None, None));
}

#[test]
fn handles_windows_backslashes_identically() {
    let home = Some("C:/Users/User");
    assert!(is_flagged(r"C:\Users\User\.config\foo", home, None));
    assert!(is_flagged(r"C:\Program Files\App", None, None));
    assert!(!is_flagged(r"C:\Users\User\Projects\App", home, None));
}

#[test]
fn each_reason_is_reported() {
    let home = Some("/home/user");
    assert_eq!(
        sensitive("/home/user/.config", home, None),
        Some("Contains user configuration data (~/.config)")
    );
    assert_eq!(
        sensitive("/home/user/.local/share/x", home, None),
        Some("User data folder (~/.local/share)")
    );
    assert_eq!(
        sensitive("/home/user/.cache", home, None),
        Some("System-wide cache directory (~/.cache)")
    );
    assert_eq!(
        sensitive("/home/user/.ssh", home, None),
        Some("Contains unsafe hidden folder")
    );
    assert_eq!(
        sensitive("/Applications/A.app/Contents", None, None),
        Some("Inside macOS .app package")
    );
    assert_eq!(
        sensitive("//server/share/.x", None, None),
        Some("Hidden path in network share")
    );
    assert_eq!(
        sensitive("C:/Users/U/AppData/Roaming/X", None, None),
        Some("Inside Windows AppData Roaming folder")
    );
    assert_eq!(
        sensitive("C:/Users/U/AppData/Local/X", None, None),
        Some("Inside Windows AppData Local folder")
    );
    assert_eq!(
        sensitive("C:/Program Files/X", None, None),
        Some("Inside Program Files folder")
    );
}

#[test]
fn home_whitelist_overrides_later_rules() {
    // a package cache inside the home stays safe even under a Program Files path
    let home = Some("/program files");
    assert_eq!(sensitive("/program files/.npm/x", home, None), None);
    assert_eq!(sensitive("/program files/other", None, None), Some("Inside Program Files folder"));
}

#[test]
fn empty_home_is_ignored() {
    assert_eq!(sensitive("/.config", Some(""), None), None);
}

#[test]
fn app_marker_scanning_skips_overlapping_occurrences() {
    // the second "/applications/" starts inside the first occurrence's tail
    assert_eq!(sensitive("/applications/applications/x.app/y", None, None), None);
    assert!(is_flagged("/applications/foo/applications/x.app/y", None, None));
    assert!(is_flagged("/applications/.app/y", None, None));
    assert!(!is_flagged("/applications//x.app/y", None, None));
    assert!(!is_flagged("/applications/x.app/", None, None));
}

#[test]
fn dot_dot_above_root_stays_at_root() {
    let cwd = Some("/a");
    assert!(is_flagged("../../../Program Files/x", None, cwd));
    assert!(is_flagged("../../../program files/x", None, Some("/")));
}

#[test]
fn drive_letter_working_directory_keeps_its_prefix() {
    assert!(is_flagged("Local/X", None, Some("C:/Users/U/AppData")));
    assert!(is_flagged("..\\Roaming\\X", None, Some("C:\\Users\\U\\AppData\\Local")));
}

#[test]
fn checked_form_matches_when_defined() {
    assert_eq!(
        sensitive_checked("../.ssh", Some("/home/u"), Some("/home/u/p")),
        Some(Some("Contains unsafe hidden folder"))
    );
    assert_eq!(sensitive_checked("x", None, None), Some(None));
    // a Kelvin sign lowercases to an ASCII `k`: the joined text has no drive prefix of its own
    assert_eq!(sensitive_checked("x", None, Some("\u{212A}:/a")), None);
}

#[test]
fn assess_works_on_normalized_text() {
    assert_eq!(
        assess("/users/u/appdata/local/.cache/x", "/users/u/appdata/local/.cache/x", None, false),
        None
    );
    assert_eq!(
        assess("/srv/share/.h", "//srv/share/.h", None, true),
        Some("Hidden path in network share")
    );
    assert_eq!(assess("/srv/share/.h", "//srv/share/.h", None, false), None);
}

#[test]
fn backslash_forms_get_the_same_verdict() {
    let pairs = [
        (r"C:\Users\U\AppData\Local\X", "C:/Users/U/AppData/Local/X"),
        (r"C:\Users\U\AppData\Local\.npm\x", "C:/Users/U/AppData/Local/.npm/x"),
        (r"D:\Program Files (x86)\Tool", "D:/Program Files (x86)/Tool"),
    ];
    for (back, forward) in pairs {
        assert_eq!(sensitive(back, None, None), sensitive(forward, None, None));
    }
    assert_eq!(
        sensitive(r"C:\Users\User\.cache\x", Some(r"C:\Users\User"), None),
        sensitive("C:/Users/User/.cache/x", Some("C:/Users/User"), None)
    );
    // where only one form is a network path the verdicts may differ
    assert_eq!(sensitive(r"\\server\share\.hidden", None, None), None);
    assert_eq!(sensitive("//server/share/.hidden", None, None), Some("Hidden path in network share"));
}

#[test]
fn relative_paths_are_judged_as_their_resolution() {
    let home = Some("/home/user");
    let cwd = Some("/home/user/projects/web-app");
    assert_eq!(sensitive("../../.ssh", home, cwd), sensitive("/home/user/.ssh", home, None));
    assert_eq!(sensitive("./node_modules", home, cwd), sensitive("/home/user/projects/web-app/node_modules", home, None));
    assert_eq!(sensitive("a/../../b/./c", None, Some("C:/Program Files/X")), Some("Inside Program Files folder"));
}

#[test]
fn system_paths_are_shown_flagged() {
    let home = Some("/home/user");
    assert!(row_flagged("/home/user/.local/share/thing", home, None));
    assert!(row_flagged("/home/user/.cache/node_modules", home, Some("/tmp")));
    assert!(!row_flagged("/home/user/projects/app/node_modules", home, None));
    assert!(!row_flagged("projects/app/target", home, Some("/home/user")));
    assert!(row_flagged(".config/app/node_modules", home, Some("/home/user")));
}

#[test]
fn resolved_paths_are_normal() {
    let first: String = resolve("a/../b/./c//d", "/x/y").into_iter().collect();
    assert_eq!(first, "/x/y/b/c/d");
    let again: String = resolve(".", &first).into_iter().collect();
    assert_eq!(again, first);
    let top: String = resolve("../../..", "/x").into_iter().collect();
    assert_eq!(top, "/");
    let still: String = resolve(".", &top).into_iter().collect();
    assert_eq!(still, "/");
}
