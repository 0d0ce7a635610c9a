use talon::paths::FilePath;
use talon::patcher::{
    idle, is_running, load, loaded, loop_is_running, loop_step, resolve_dll_path, start, stop,
    unload, LoadStep, LoopReply, LoopState, PatcherState, StartStep, Worker,
};
use talon::pengu::ifeo::{
    after_delete, after_open, after_probe, after_read, debugger_value, hook_key, registry_outcome,
    ReadStep, RegistryOutcome,
};
use talon::pengu::process::exe_name_matches;
use talon::pengu::{
    activate, deactivate, flag_path, is_ours, key_is_ours, resolve_core_dll_path, resume_if_active,
    Activation, FlagStep,
};
use talon::wide::{from_wide, to_wide};

#[test]
fn tool_paths_stand_under_the_data_directory() {
    let data = FilePath::new().join("data");
    assert_eq!(
        resolve_dll_path(&data).to_text(),
        FilePath::new().join("data").join("cslol-tools").join("cslol-dll.dll").to_text()
    );
    assert_eq!(
        flag_path(&data).to_text(),
        FilePath::new().join("data").join("runtime").join("pengu.flag").to_text()
    );
    assert_eq!(
        resolve_core_dll_path(&data).to_text(),
        FilePath::new().join("data").join("resources").join("core.dll").to_text()
    );
}

#[test]
fn library_is_loaded_once() {
    let fresh = idle();
    assert_eq!(load(fresh, false), LoadStep::NoFile);
    assert_eq!(load(fresh, true), LoadStep::Load);
    assert_eq!(load(loaded(fresh), false), LoadStep::Done);
}

#[test]
fn patcher_starts_and_stops() {
    let mut state = idle();
    assert_eq!(start(&mut state), StartStep::NotLoaded);
    state = loaded(state);
    assert_eq!(start(&mut state), StartStep::Spawn);
    assert_eq!(start(&mut state), StartStep::Done);
    assert_eq!(state, PatcherState { loaded: true, worker: Worker::Busy, running: false });
    state.running = true;
    assert!(is_running(&state));
    assert!(stop(&mut state));
    assert!(!is_running(&state));
    assert!(!stop(&mut state));
    assert_eq!(start(&mut state), StartStep::Spawn);
    assert!(unload(&mut state));
    assert!(!unload(&mut state));
    assert_eq!(state, idle());
}

#[test]
fn patcher_thread_hooks_the_game_it_found() {
    let ok = LoopReply::Called { ok: true };
    let mut state = LoopState::Setup { call: 0 };
    for _ in 0..4 {
        assert!(!loop_is_running(state));
        state = loop_step(state, ok).0;
    }
    assert_eq!(state, LoopState::Search);
    assert_eq!(loop_step(state, LoopReply::Found { thread: 0 }), (LoopState::Search, 100));
    state = loop_step(state, LoopReply::Found { thread: 9 }).0;
    assert_eq!(state, LoopState::Hook { thread: 9 });
    state = loop_step(state, ok).0;
    assert!(loop_is_running(state));
    assert_eq!(loop_step(state, LoopReply::Found { thread: 9 }), (LoopState::Watch { thread: 9 }, 500));
    assert_eq!(loop_step(state, LoopReply::Found { thread: 0 }), (LoopState::Search, 0));
    assert_eq!(loop_step(state, LoopReply::StopAsked), (LoopState::Stopped, 0));
    assert_eq!(loop_step(LoopState::Hook { thread: 9 }, LoopReply::Called { ok: false }).0, LoopState::Failed);
    assert_eq!(loop_step(LoopState::Failed, ok).0, LoopState::Failed);
    assert_eq!(loop_step(LoopState::Stopped, LoopReply::Found { thread: 9 }).0, LoopState::Stopped);
}

#[test]
fn own_registry_value_is_recognised_in_any_case() {
    let dll = "C:\\Talon\\core.dll";
    let value = debugger_value(dll);
    assert_eq!(value, "rundll32 \"C:\\Talon\\core.dll\",_BootstrapEntry ");
    assert!(is_ours(value.as_str(), dll));
    assert!(is_ours("RUNDLL32 \"c:\\TALON\\Core.dll\"", dll));
    assert!(!is_ours("rundll32 \"C:\\Other\\core.dll\"", dll));
    assert!(key_is_ours(Some(value.as_str()), dll));
    assert!(!key_is_ours(None, dll));
}

#[test]
fn activation_leaves_other_tools_alone() {
    let dll = "C:\\Talon\\core.dll";
    assert_eq!(activate(false, None, dll), Activation::NoDll);
    assert_eq!(activate(true, Some("other"), dll), Activation::OtherTool);
    assert_eq!(activate(true, None, dll), Activation::Register);
    let value = debugger_value(dll);
    assert_eq!(activate(true, Some(value.as_str()), dll), Activation::Register);
    assert!(deactivate(Some(value.as_str()), dll));
    assert!(!deactivate(Some("other"), dll));
}

#[test]
fn marker_follows_the_registry() {
    let dll = "C:\\Talon\\core.dll";
    let value = debugger_value(dll);
    assert_eq!(resume_if_active(Some(value.as_str()), dll, true), (true, FlagStep::Leave));
    assert_eq!(resume_if_active(Some(value.as_str()), dll, false), (true, FlagStep::Write));
    assert_eq!(resume_if_active(None, dll, true), (false, FlagStep::Remove));
    assert_eq!(resume_if_active(None, dll, false), (false, FlagStep::Leave));
}

#[test]
fn registry_answers_are_told_apart() {
    assert_eq!(registry_outcome(0), RegistryOutcome::Done);
    assert_eq!(registry_outcome(2), RegistryOutcome::Absent);
    assert_eq!(registry_outcome(5), RegistryOutcome::Failed { code: 5 });
    assert_eq!(after_open(2), ReadStep::Nothing);
    assert_eq!(after_open(5), ReadStep::Failed { code: 5 });
    assert_eq!(after_probe(2, 0, 0), ReadStep::Nothing);
    assert_eq!(after_probe(0, 4, 4), ReadStep::Nothing);
    assert_eq!(after_probe(0, 1, 7), ReadStep::Go { units: 4 });
    assert_eq!(after_probe(13, 1, 7), ReadStep::Failed { code: 13 });
    assert_eq!(after_read(0, &[0x61, 0x62, 0, 0x63]), Ok("ab".to_string()));
    assert_eq!(after_read(234, &[]), Err(234));
    assert_eq!(after_delete(2), Ok(()));
    assert_eq!(after_delete(5), Err(5));
    assert!(hook_key().ends_with("LeagueClientUx.exe"));
}

#[test]
fn wide_text_round_trip() {
    let wide = to_wide("a\u{1F600}z");
    assert_eq!(wide, vec![0x61, 0xD83D, 0xDE00, 0x7A, 0]);
    assert_eq!(from_wide(&wide[..4]), "a\u{1F600}z");
    assert_eq!(from_wide(&[0xD800, 0x61]), "\u{FFFD}a");
    assert_eq!(from_wide(&[0xDC00]), "\u{FFFD}");
}

#[test]
fn process_names_end_at_the_first_zero() {
    let mut name = [0u16; 260];
    for (i, unit) in "LeagueClientUx.exe".encode_utf16().enumerate() {
        name[i] = unit;
    }
    name[30] = 0x78;
    assert!(exe_name_matches(&name, "LeagueClientUx.exe"));
    assert!(!exe_name_matches(&name, "leagueclientux.exe"));
}
