//! The hook by which the client loads the in-client plugin.

pub mod ifeo;
pub mod process;

use crate::paths::{FilePath, PartView};
use crate::text::{contains, has_part, lower, occurs_at, to_lower};
use ifeo::hook_command;
use vstd::prelude::*;

verus! {

/// The marker that is there while the hook is active.
pub fn flag_path(app_data_dir: &FilePath) -> (r: FilePath)
    ensures
        r@ == app_data_dir@.push(PartView::Normal("runtime"@)).push(
            PartView::Normal("pengu.flag"@),
        ),
{
    app_data_dir.join("runtime").join("pengu.flag")
}

/// Where the plugin loader is installed.
pub fn resolve_core_dll_path(resource_dir: &FilePath) -> (r: FilePath)
    ensures
        r@ == resource_dir@.push(PartView::Normal("resources"@)).push(
            PartView::Normal("core.dll"@),
        ),
{
    resource_dir.join("resources").join("core.dll")
}

/// Whether a registered command is that of our own loader. Paths have no case.
pub open spec fn belongs_to(command: Seq<char>, core_dll: Seq<char>) -> bool {
    has_part(lower(command), lower(core_dll))
}

pub fn is_ours(debugger_value: &str, core_dll_path: &str) -> (r: bool)
    ensures
        r == belongs_to(debugger_value@, core_dll_path@),
{
    contains(to_lower(debugger_value).as_str(), to_lower(core_dll_path).as_str())
}

/// Whether what is registered, if anything could be read, is our own hook.
pub open spec fn hooked_by_us(command: Option<Seq<char>>, core_dll: Seq<char>) -> bool {
    command matches Some(c) && belongs_to(c, core_dll)
}

/// What is registered, as a value.
pub open spec fn command_view(command: Option<&str>) -> Option<Seq<char>> {
    match command {
        Some(c) => Some(c@),
        None => None,
    }
}

/// Whether what is registered is our own hook. A command that could not be read
/// counts as none.
pub fn key_is_ours(command: Option<&str>, core_dll_path: &str) -> (r: bool)
    ensures
        r == hooked_by_us(command_view(command), core_dll_path@),
{
    match command {
        Some(c) => is_ours(c, core_dll_path),
        None => false,
    }
}

/// What is done with the marker.
#[derive(Debug, Clone, Copy, PartialEq, Eq, Structural)]
pub enum FlagStep {
    Leave,
    Write,
    Remove,
}

/// What is done so that the marker says whether the hook is active.
pub open spec fn flag_step(active: bool, flag_exists: bool) -> FlagStep {
    if active == flag_exists {
        FlagStep::Leave
    } else if active {
        FlagStep::Write
    } else {
        FlagStep::Remove
    }
}

/// Whether the hook is active when the program starts, and what is done so that
/// the marker says the same.
pub fn resume_if_active(command: Option<&str>, core_dll_path: &str, flag_exists: bool) -> (r: (
    bool,
    FlagStep,
))
    ensures
        r.0 == hooked_by_us(command_view(command), core_dll_path@),
        r.1 == flag_step(r.0, flag_exists),
{
    let active = key_is_ours(command, core_dll_path);
    if active && !flag_exists {
        (true, FlagStep::Write)
    } else if !active && flag_exists {
        (false, FlagStep::Remove)
    } else {
        (active, FlagStep::Leave)
    }
}

/// Whether the marker is there after a step.
pub open spec fn flag_after(flag_exists: bool, step: FlagStep) -> bool {
    match step {
        FlagStep::Leave => flag_exists,
        FlagStep::Write => true,
        FlagStep::Remove => false,
    }
}

/// What activating the hook comes to.
#[derive(Debug, Clone, Copy, PartialEq, Eq, Structural)]
pub enum Activation {
    /// The plugin loader is not installed.
    NoDll,
    /// The hook of another tool is left alone.
    OtherTool,
    /// The hook is registered, the marker is written, and the client's window
    /// process is ended so that it starts again with the hook.
    Register,
}

/// What activating the hook comes to.
pub fn activate(dll_exists: bool, command: Option<&str>, core_dll_path: &str) -> (r: Activation)
    ensures
        r == (if !dll_exists {
            Activation::NoDll
        } else if command is Some && !hooked_by_us(command_view(command), core_dll_path@) {
            Activation::OtherTool
        } else {
            Activation::Register
        }),
{
    if !dll_exists {
        return Activation::NoDll;
    }
    if let Some(c) = command {
        if !is_ours(c, core_dll_path) {
            return Activation::OtherTool;
        }
    }
    Activation::Register
}

/// Whether deactivating takes the registered hook away and ends the client's
/// window process. The marker is removed in any case.
pub fn deactivate(command: Option<&str>, core_dll_path: &str) -> (r: bool)
    ensures
        r == hooked_by_us(command_view(command), core_dll_path@),
{
    key_is_ours(command, core_dll_path)
}

/// After starting, the marker is there exactly where the hook is ours.
pub proof fn law_flag_says_active(active: bool, flag_exists: bool)
    ensures
        flag_after(flag_exists, flag_step(active, flag_exists)) == active,
{
}

/// A hook that was registered is known as our own.
pub proof fn law_registered_is_ours(core_dll: Seq<char>)
    ensures
        belongs_to(hook_command(core_dll), core_dll),
{
    let command = hook_command(core_dll);
    let at = "rundll32 \""@.len() as int;
    assert(lower(command).subrange(at, at + lower(core_dll).len()) =~= lower(core_dll));
    assert(occurs_at(lower(command), lower(core_dll), at));
}

} // verus!
