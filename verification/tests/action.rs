use sdirstat::action::{
    action_done, open_command, path_facts, run_action, trash_command, trash_failed, Action,
    Platform,
};
use std::path::Path;

#[test]
fn facts_follow_the_rules_of_paths() {
    for p in [
        "/", "//", "/.", "/./.", "/a", "/a/", "//a", "/a/b", "/a//b", "/a/./b", "/a/b/.", "/a/b//.//",
        "/./a", "/..", "/a/..", "/a/../b", "/é/ü", "a", "", ".", "a/b",
    ] {
        let f = path_facts(p, true);
        let q = Path::new(p);
        assert_eq!(f.absolute, q.is_absolute(), "{p}");
        if f.absolute {
            assert_eq!(f.parent, q.parent().map(|d| d.to_string_lossy().into_owned()), "{p}");
        } else {
            assert_eq!(f.parent, None);
        }
        assert!(f.exists);
    }
    assert!(!path_facts("/x", false).exists);
}

fn act(op: &str, path: &str, exists: bool, home: &str) -> Result<Action, String> {
    run_action(op, path, &path_facts(path, exists), home)
}

#[test]
fn unsafe_paths_are_refused() {
    for p in [
        "", "/", "//", "/.", "relative", "./x", "/home/me", "/home/me/", "/home/me/.", "/home//me",
        "//home/./me//", "/./home/me/./",
    ] {
        for op in ["trash", "open", "reveal", "bogus"] {
            assert_eq!(act(op, p, true, "/home/me").err().unwrap(), "refused: unsafe or invalid path");
        }
    }
    assert_eq!(act("trash", "/", false, "/home/me").err().unwrap(), "refused: unsafe or invalid path");
}

#[test]
fn home_is_refused_however_it_is_written() {
    for home in ["/home/me/", "/home//me", "/home/me/.", "/home/me"] {
        for p in ["/home/me", "/home/me/", "/home/me/.", "/home//me", "/home/me//"] {
            assert_eq!(
                act("trash", p, true, home).err().unwrap(),
                "refused: unsafe or invalid path",
                "{p} at home in {home}"
            );
        }
        for p in ["/home", "/home/me/x", "/home/mee", "/home/m", "/me", "/x/home/me", "/home/me/.."] {
            assert!(matches!(act("trash", p, true, home), Ok(Action::Trash)), "{p}");
        }
    }
    assert!(matches!(act("trash", "/home/me", true, "home/me"), Ok(Action::Trash)));
}

#[test]
fn missing_paths_and_unknown_operations() {
    assert_eq!(act("trash", "/x", false, "/h").err().unwrap(), "path does not exist");
    assert_eq!(act("bogus", "/x", false, "/h").err().unwrap(), "path does not exist");
    assert_eq!(act("bogus", "/x", true, "/h").err().unwrap(), "unknown action");
    assert_eq!(act("delete", "/x", true, "/h").err().unwrap(), "unknown action");
}

#[test]
fn actions() {
    assert!(matches!(act("trash", "/home/me/x", true, "/home/me"), Ok(Action::Trash)));
    assert!(matches!(act("open", "/x", true, ""), Ok(Action::Open)));
    match act("reveal", "/a/b/", true, "/h") {
        Ok(Action::Reveal(d)) => assert_eq!(d, "/a"),
        _ => panic!("not revealed"),
    }
    assert_eq!(action_done(&Action::Trash), "moved to trash");
    assert_eq!(action_done(&Action::Open), "opened");
    assert_eq!(action_done(&Action::Reveal(String::new())), "revealed");
}

#[test]
fn commands_that_open() {
    assert_eq!(open_command(Platform::Linux, "/x"), Ok(vec!["xdg-open".to_string(), "/x".to_string()]));
    assert_eq!(open_command(Platform::MacOs, "/x"), Ok(vec!["open".to_string(), "/x".to_string()]));
    assert_eq!(open_command(Platform::Windows, "/x"), Ok(vec!["explorer".to_string(), "/x".to_string()]));
    assert_eq!(open_command(Platform::Other, "/x"), Err("open not supported on this platform".to_string()));
}

#[test]
fn commands_that_trash() {
    assert_eq!(
        trash_command(Platform::Linux, "-rf"),
        Ok(vec!["gio".to_string(), "trash".to_string(), "--".to_string(), "-rf".to_string()])
    );
    assert_eq!(
        trash_command(Platform::MacOs, "/a\"b").unwrap()[2],
        "tell application \"Finder\" to delete POSIX file \"/a\\\"b\""
    );
    let w = trash_command(Platform::Windows, "C:\\it's").unwrap();
    assert_eq!(&w[..3], &["powershell", "-NoProfile", "-Command"]);
    assert_eq!(
        w[3],
        "Add-Type -AssemblyName Microsoft.VisualBasic; if (Test-Path -PathType Container 'C:\\it''s') { \
         [Microsoft.VisualBasic.FileIO.FileSystem]::DeleteDirectory('C:\\it''s','OnlyErrorDialogs','SendToRecycleBin') } else { \
         [Microsoft.VisualBasic.FileIO.FileSystem]::DeleteFile('C:\\it''s','OnlyErrorDialogs','SendToRecycleBin') }"
    );
    assert_eq!(trash_command(Platform::Other, "/x"), Err("trash not supported on this platform".to_string()));
    assert_eq!(trash_failed(Platform::Linux), "gio trash failed");
    assert_eq!(trash_failed(Platform::Windows), "trash failed");
}
