//! What to do when a Small Deck key fires: open the bound target with the
//! platform's default mechanism, or run it as a shell command line. The
//! launch itself is the caller's; this module decides what to launch.

use vstd::prelude::*;
use crate::store::{EntryView, Store};
use crate::text::{law_trim_shape, law_trimmed, spec_is_whitespace, trim, trimmed};

verus! {

/// A launch to perform.
pub enum LaunchAction {
    /// Hand the target (program, file, folder or URL) to the OS open mechanism.
    Open(String),
    /// Run the command line with the platform shell.
    Shell(String),
}

/// The abstract value of a [`LaunchAction`].
pub enum ActionView {
    Open(Seq<char>),
    Shell(Seq<char>),
}

impl View for LaunchAction {
    type V = ActionView;

    open spec fn view(&self) -> ActionView {
        match self {
            LaunchAction::Open(t) => ActionView::Open(t@),
            LaunchAction::Shell(c) => ActionView::Shell(c@),
        }
    }
}

/// The abstract value of a launch decision.
pub open spec fn outcome(r: Result<LaunchAction, String>) -> Result<ActionView, Seq<char>> {
    match r {
        Ok(a) => Ok(a@),
        Err(e) => Err(e@),
    }
}

/// Opening `target`: refused when it is blank, otherwise the target without
/// its surrounding whitespace.
pub open spec fn spec_launch(target: Seq<char>) -> Result<ActionView, Seq<char>> {
    if trimmed(target).len() == 0 {
        Err("No program/target set for this key."@)
    } else {
        Ok(ActionView::Open(trimmed(target)))
    }
}

/// Running `command`: refused when it is blank, otherwise the command line
/// without its surrounding whitespace.
pub open spec fn spec_run_command(command: Seq<char>) -> Result<ActionView, Seq<char>> {
    if trimmed(command).len() == 0 {
        Err("No command set for this key."@)
    } else {
        Ok(ActionView::Shell(trimmed(command)))
    }
}

/// Dispatching a binding by its kind: `command` runs in the shell, every
/// other kind is opened.
pub open spec fn spec_run_entry(kind: Seq<char>, target: Seq<char>) -> Result<
    ActionView,
    Seq<char>,
> {
    if kind == "command"@ {
        spec_run_command(target)
    } else {
        spec_launch(target)
    }
}

/// Launching the binding of `key` in a store with bindings `m`.
pub open spec fn spec_launch_key(m: Map<Seq<char>, EntryView>, key: Seq<char>) -> Result<
    ActionView,
    Seq<char>,
> {
    if m.contains_key(key) {
        spec_run_entry(m[key].kind, m[key].path)
    } else {
        Err("No program bound to this key."@)
    }
}

/// Open `target` using the platform's default mechanism.
pub fn launch(target: &str) -> (r: Result<LaunchAction, String>)
    ensures
        outcome(r) == spec_launch(target@),
{
    let t = trim(target);
    if t.unicode_len() == 0 {
        return Err(String::from_str("No program/target set for this key."));
    }
    Ok(LaunchAction::Open(t))
}

/// Run a shell command line.
pub fn run_command(command: &str) -> (r: Result<LaunchAction, String>)
    ensures
        outcome(r) == spec_run_command(command@),
{
    let c = trim(command);
    if c.unicode_len() == 0 {
        return Err(String::from_str("No command set for this key."));
    }
    Ok(LaunchAction::Shell(c))
}

/// Dispatch a binding by its kind: `command` runs in the shell; everything
/// else (app / folder / url) is handed to the OS open mechanism.
pub fn run_entry(kind: &str, target: &str) -> (r: Result<LaunchAction, String>)
    ensures
        outcome(r) == spec_run_entry(kind@, target@),
{
    let is_command = String::from_str(kind) == String::from_str("command");
    if is_command {
        run_command(target)
    } else {
        launch(target)
    }
}

/// Launch the program bound to `key` (the "Test" button and the hotkeys).
pub fn launch_key(store: &Store, key: &str) -> (r: Result<LaunchAction, String>)
    ensures
        outcome(r) == spec_launch_key(store@, key@),
{
    match store.get(key) {
        Some(entry) => run_entry(entry.kind.as_str(), entry.path.as_str()),
        None => Err(String::from_str("No program bound to this key.")),
    }
}


/// A key just bound launches what it was bound to; a key just removed
/// launches nothing and is answered "No program bound to this key.".
pub proof fn law_launch_key_after_update(
    m: Map<Seq<char>, EntryView>,
    key: Seq<char>,
    entry: EntryView,
)
    ensures
        spec_launch_key(m.insert(key, entry), key) == spec_run_entry(entry.kind, entry.path),
        spec_launch_key(m.remove(key), key) == Err::<ActionView, Seq<char>>(
            "No program bound to this key."@,
        ),
{
}

/// Whatever is launched is non-blank and free of surrounding whitespace:
/// a blank target is always refused, and the launched text is the target
/// trimmed.
pub proof fn law_launched_target(kind: Seq<char>, target: Seq<char>)
    ensures
        trimmed(target).len() == 0 ==> spec_run_entry(kind, target) is Err,
        spec_run_entry(kind, target) matches Ok(a) ==> match a {
            ActionView::Open(t) => t == trimmed(target) && kind != "command"@,
            ActionView::Shell(c) => c == trimmed(target) && kind == "command"@,
        },
        spec_run_entry(kind, target) is Ok ==> {
            let t = trimmed(target);
            t.len() > 0 && !spec_is_whitespace(t[0]) && !spec_is_whitespace(t.last())
        },
{
    law_trimmed(target);
}


/// Every target with a non-whitespace character is opened, trimmed, whatever
/// characters (spaces included) or length it has; only an all-whitespace
/// target is refused.
pub proof fn law_launch_opens_every_target(target: Seq<char>)
    ensures
        (exists|k: int| 0 <= k < target.len() && !spec_is_whitespace(#[trigger] target[k]))
            ==> spec_launch(target) == Ok::<ActionView, Seq<char>>(
            ActionView::Open(trimmed(target)),
        ),
        (forall|k: int| 0 <= k < target.len() ==> spec_is_whitespace(#[trigger] target[k]))
            ==> spec_launch(target) == Err::<ActionView, Seq<char>>(
            "No program/target set for this key."@,
        ),
{
    law_trim_shape(target);
}

/// Every command line with a non-whitespace character is run, trimmed,
/// whatever its length; only an all-whitespace one is refused.
pub proof fn law_run_command_runs_every_command(command: Seq<char>)
    ensures
        (exists|k: int| 0 <= k < command.len() && !spec_is_whitespace(#[trigger] command[k]))
            ==> spec_run_command(command) == Ok::<ActionView, Seq<char>>(
            ActionView::Shell(trimmed(command)),
        ),
        (forall|k: int| 0 <= k < command.len() ==> spec_is_whitespace(#[trigger] command[k]))
            ==> spec_run_command(command) == Err::<ActionView, Seq<char>>(
            "No command set for this key."@,
        ),
{
    law_trim_shape(command);
}

} // verus!
