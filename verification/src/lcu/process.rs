//! Finding the install directory of the running League client.

use crate::paths::{FilePath, PathView};
use crate::text::same_text;
use vstd::prelude::*;

verus! {

/// A running process: its name, and the directory of its executable, where
/// they are known.
pub struct Process {
    pub name: Option<String>,
    pub exe_dir: Option<FilePath>,
}

/// Whether a process is the League client with a known directory.
pub open spec fn is_client(p: Process) -> bool {
    &&& p.name matches Some(n) && n@ == "LeagueClient.exe"@
    &&& p.exe_dir is Some
}

/// The directory of the first League client, from `i` on.
pub open spec fn client_dir(processes: Seq<Process>, i: int) -> Option<PathView>
    decreases processes.len() - i,
{
    if i >= processes.len() {
        None
    } else if is_client(processes[i]) {
        Some(processes[i].exe_dir->0@)
    } else {
        client_dir(processes, i + 1)
    }
}

/// The install directory of the running League client.
pub fn find_install_directory(processes: &Vec<Process>) -> (r: Option<FilePath>)
    ensures
        match r {
            Some(p) => client_dir(processes@, 0) == Some(p@),
            None => client_dir(processes@, 0) is None,
        },
{
    let mut i: usize = 0;
    while i < processes.len()
        invariant
            i <= processes@.len(),
            client_dir(processes@, 0) == client_dir(processes@, i as int),
        decreases processes@.len() - i,
    {
        if let Some(name) = &processes[i].name {
            if same_text(name.as_str(), "LeagueClient.exe") {
                if let Some(dir) = &processes[i].exe_dir {
                    return Some(dir.clone());
                }
            }
        }
        i = i + 1;
    }
    None
}

/// The directory is that of the first process that is the client and has one;
/// there is none just where no process is.
pub proof fn law_client_dir(processes: Seq<Process>, from: int)
    requires
        0 <= from <= processes.len(),
    ensures
        match client_dir(processes, from) {
            Some(dir) => exists|i: int|
                from <= i < processes.len() && is_client(#[trigger] processes[i])
                    && processes[i].exe_dir->0@ == dir && forall|j: int|
                    from <= j < i ==> !is_client(#[trigger] processes[j]),
            None => forall|i: int|
                from <= i < processes.len() ==> !is_client(#[trigger] processes[i]),
        },
    decreases processes.len() - from,
{
    if from < processes.len() {
        law_client_dir(processes, from + 1);
    }
}

} // verus!
