use smalldeck::launcher::{launch, launch_key, run_command, run_entry, LaunchAction};
use smalldeck::store::{Entry, Store};
use smalldeck::text::trim;

fn open_of(r: Result<LaunchAction, String>) -> String {
    match r {
        Ok(LaunchAction::Open(t)) => t,
        _ => panic!("expected an Open action"),
    }
}

fn shell_of(r: Result<LaunchAction, String>) -> String {
    match r {
        Ok(LaunchAction::Shell(t)) => t,
        _ => panic!("expected a Shell action"),
    }
}

#[test]
fn trim_unicode_whitespace() {
    assert_eq!(trim("  abc \t\n"), "abc");
    assert_eq!(trim("\u{3000}a b\u{00A0}"), "a b");
    assert_eq!(trim(" \u{2028} "), "");
    assert_eq!(trim(""), "");
    assert_eq!(trim("x"), "x");
    assert_eq!(trim("\u{200B}x"), "\u{200B}x");
}

#[test]
fn launch_trims_and_refuses_blank() {
    assert_eq!(open_of(launch("  /Applications/Safari.app \n")), "/Applications/Safari.app");
    assert_eq!(launch("   ").err().unwrap(), "No program/target set for this key.");
    assert_eq!(launch("").err().unwrap(), "No program/target set for this key.");
}

#[test]
fn run_command_trims_and_refuses_blank() {
    assert_eq!(shell_of(run_command(" bash ~/foo.sh ")), "bash ~/foo.sh");
    assert_eq!(run_command("\t").err().unwrap(), "No command set for this key.");
}

#[test]
fn run_entry_dispatches_on_kind() {
    assert_eq!(shell_of(run_entry("command", " ls ")), "ls");
    assert_eq!(open_of(run_entry("url", " https://example.com ")), "https://example.com");
    assert_eq!(open_of(run_entry("folder", "/tmp")), "/tmp");
    assert_eq!(open_of(run_entry("Command", "ls")), "ls");
    assert_eq!(run_entry("command", " ").err().unwrap(), "No command set for this key.");
    assert_eq!(run_entry("app", " ").err().unwrap(), "No program/target set for this key.");
}

#[test]
fn launch_key_uses_binding() {
    let mut s = Store::load(None);
    assert_eq!(launch_key(&s, "F13").err().unwrap(), "No program bound to this key.");
    s.set(
        "F13".to_string(),
        Entry { path: " echo hi ".to_string(), name: "hi".to_string(), kind: "command".to_string() },
    );
    assert_eq!(shell_of(launch_key(&s, "F13")), "echo hi");
    s.remove("F13");
    assert_eq!(launch_key(&s, "F13").err().unwrap(), "No program bound to this key.");
}

#[test]
fn trim_is_idempotent() {
    for s in ["  a  ", "\u{3000}\u{3000}", "x y", "\n\tz\u{85}"] {
        let once = trim(s);
        assert_eq!(trim(&once), once);
    }
}
