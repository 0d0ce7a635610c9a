//! The registry entry that holds the hook.

use crate::text::{concat, push_text, text};
use crate::wide::{first_zero, from_wide, narrow};
use vstd::prelude::*;

verus! {

/// The command that is registered: it starts the client's window process
/// through the plugin loader.
pub open spec fn hook_command(core_dll: Seq<char>) -> Seq<char> {
    "rundll32 \""@ + core_dll + "\",_BootstrapEntry "@
}

pub fn debugger_value(core_dll_path: &str) -> (r: String)
    ensures
        r@ == hook_command(core_dll_path@),
{
    let mut out = concat("rundll32 \"", core_dll_path);
    push_text(&mut out, "\",_BootstrapEntry ");
    out
}

/// What a registry call came to, by its result code.
#[derive(Debug, Clone, Copy, PartialEq, Eq, Structural)]
pub enum RegistryOutcome {
    Done,
    /// The key or value is not there.
    Absent,
    Failed { code: u32 },
}

pub fn registry_outcome(code: u32) -> (r: RegistryOutcome)
    ensures
        r == (if code == 0 {
            RegistryOutcome::Done
        } else if code == 2 {
            RegistryOutcome::Absent
        } else {
            RegistryOutcome::Failed { code }
        }),
{
    if code == 0 {
        RegistryOutcome::Done
    } else if code == 2 {
        RegistryOutcome::Absent
    } else {
        RegistryOutcome::Failed { code }
    }
}

/// The registry's code for a text value.
pub const REG_SZ: u32 = 1;

/// The next step of reading a value.
#[derive(Debug, Clone, Copy, PartialEq, Eq, Structural)]
pub enum ReadStep {
    /// There is no text value.
    Nothing,
    Failed { code: u32 },
    /// Go on, with room for so many 16-bit units.
    Go { units: usize },
}

/// What follows on opening the key.
pub fn after_open(code: u32) -> (r: ReadStep)
    ensures
        r == (if code == 2 {
            ReadStep::Nothing
        } else if code != 0 {
            ReadStep::Failed { code }
        } else {
            ReadStep::Go { units: 0 }
        }),
{
    match registry_outcome(code) {
        RegistryOutcome::Absent => ReadStep::Nothing,
        RegistryOutcome::Failed { code } => ReadStep::Failed { code },
        RegistryOutcome::Done => ReadStep::Go { units: 0 },
    }
}

/// What follows on asking for the type and size of the value. Values that are no
/// text count as missing.
pub fn after_probe(code: u32, value_type: u32, size: u32) -> (r: ReadStep)
    ensures
        r == (if code == 2 {
            ReadStep::Nothing
        } else if code != 0 {
            ReadStep::Failed { code }
        } else if value_type != REG_SZ {
            ReadStep::Nothing
        } else {
            ReadStep::Go { units: ((size + 1) / 2) as usize }
        }),
{
    match registry_outcome(code) {
        RegistryOutcome::Absent => ReadStep::Nothing,
        RegistryOutcome::Failed { code } => ReadStep::Failed { code },
        RegistryOutcome::Done => {
            if value_type != REG_SZ {
                ReadStep::Nothing
            } else {
                let units: u32 = size / 2 + size % 2;
                ReadStep::Go { units: units as usize }
            }
        },
    }
}

/// The text of a value that was read, or the code of the failure.
pub fn after_read(code: u32, buffer: &[u16]) -> (r: Result<String, u32>)
    ensures
        match r {
            Ok(s) => code == 0 && s@ == narrow(buffer@.take(first_zero(buffer@, 0))),
            Err(c) => code != 0 && c == code,
        },
{
    if code != 0 {
        return Err(code);
    }
    Ok(from_wide(buffer))
}

/// Whether deleting the key succeeded. One that is not there counts as deleted.
pub fn after_delete(code: u32) -> (r: Result<(), u32>)
    ensures
        r == (if code == 0 || code == 2 {
            Ok::<(), u32>(())
        } else {
            Err::<(), u32>(code)
        }),
{
    match registry_outcome(code) {
        RegistryOutcome::Failed { code } => Err(code),
        _ => Ok(()),
    }
}

/// The key that holds the hook.
pub fn hook_key() -> (r: String)
    ensures
        r@
            == "SOFTWARE\\Microsoft\\Windows NT\\CurrentVersion\\Image File Execution Options\\LeagueClientUx.exe"@,
{
    text(
        "SOFTWARE\\Microsoft\\Windows NT\\CurrentVersion\\Image File Execution Options\\LeagueClientUx.exe",
    )
}

} // verus!
