use bogo_gpu::config::{ComputeBackend, ComputeConfig, Config, UserConfig};
use bogo_gpu::settings::{SettingsEdit, SettingsPanel};
use bogo_gpu::worker::WorkerCmd;

fn config() -> Config {
    Config {
        user: UserConfig {
            uuid: "u-1".to_string(),
            nickname: "nick".to_string(),
            code: "secret".to_string(),
        },
        compute: ComputeConfig {
            backend: ComputeBackend::Cpu,
            gpu_arch: "sm_86".to_string(),
            blocks: 128,
            threads: 64,
            cpu_threads: 0,
        },
    }
}

fn refusal(edit: &SettingsEdit) -> String {
    match edit.to_config() {
        Ok(_) => panic!("accepted"),
        Err(message) => message,
    }
}

#[test]
fn the_fields_show_the_configuration() {
    let edit = SettingsEdit::from_config(&config());
    assert_eq!((edit.uuid.as_str(), edit.nickname.as_str(), edit.code.as_str()), ("u-1", "nick", "secret"));
    assert_eq!(edit.backend, ComputeBackend::Cpu);
    assert_eq!((edit.blocks.as_str(), edit.threads.as_str(), edit.cpu_threads.as_str()), ("128", "64", "0"));
    assert!(edit.feedback.is_none());
}

#[test]
fn unchanged_settings_are_kept() {
    let read = SettingsEdit::from_config(&config()).to_config().unwrap();
    assert_eq!(format!("{read:?}"), format!("{:?}", config()));
}

#[test]
fn white_space_around_the_fields_is_dropped() {
    let mut edit = SettingsEdit::from_config(&config());
    edit.uuid = "\t u-2 \n".to_string();
    edit.nickname = "\u{3000}two words\u{a0}".to_string();
    edit.gpu_arch = "  ".to_string();
    edit.blocks = " +7 ".to_string();
    edit.cpu_threads = "008".to_string();
    let read = edit.to_config().unwrap();
    assert_eq!((read.user.uuid.as_str(), read.user.nickname.as_str()), ("u-2", "two words"));
    assert_eq!(read.compute.gpu_arch, "");
    assert_eq!((read.compute.blocks, read.compute.cpu_threads), (7, 8));
    // and what was read can be shown and read again
    let again = SettingsEdit::from_config(&read).to_config().unwrap();
    assert_eq!(format!("{again:?}"), format!("{read:?}"));
}

#[test]
fn numbers_are_checked() {
    for text in ["", "abc", "-1", "1.5", "4294967296", "1 2", "+"] {
        let mut edit = SettingsEdit::from_config(&config());
        edit.blocks = text.to_string();
        assert_eq!(refusal(&edit), "Blocks must be a positive integer");
        let mut edit = SettingsEdit::from_config(&config());
        edit.threads = text.to_string();
        assert_eq!(refusal(&edit), "Threads must be a positive integer");
        let mut edit = SettingsEdit::from_config(&config());
        edit.cpu_threads = text.to_string();
        assert_eq!(refusal(&edit), "CPU threads must be 0 or a positive integer");
    }
    let mut edit = SettingsEdit::from_config(&config());
    edit.blocks = "4294967295".to_string();
    assert_eq!(edit.to_config().unwrap().compute.blocks, u32::MAX);
}

#[test]
fn zero_blocks_or_threads_are_refused() {
    let mut edit = SettingsEdit::from_config(&config());
    edit.blocks = "0".to_string();
    assert_eq!(refusal(&edit), "Blocks must be > 0");
    edit.blocks = "1".to_string();
    edit.threads = "0".to_string();
    assert_eq!(refusal(&edit), "Threads must be > 0");
}

#[test]
fn empty_credentials_are_refused() {
    let mut edit = SettingsEdit::from_config(&config());
    edit.uuid = " ".to_string();
    assert_eq!(refusal(&edit), "UUID cannot be empty");
    let mut edit = SettingsEdit::from_config(&config());
    edit.nickname = "".to_string();
    assert_eq!(refusal(&edit), "Nickname cannot be empty");
    let mut edit = SettingsEdit::from_config(&config());
    edit.code = "\n".to_string();
    assert_eq!(refusal(&edit), "Code cannot be empty");
}

#[test]
fn the_first_fault_is_reported() {
    let mut edit = SettingsEdit::from_config(&config());
    edit.uuid = "".to_string();
    edit.code = "".to_string();
    edit.blocks = "0".to_string();
    edit.threads = "x".to_string();
    edit.cpu_threads = "x".to_string();
    assert_eq!(refusal(&edit), "Threads must be a positive integer");
    edit.threads = "0".to_string();
    assert_eq!(refusal(&edit), "CPU threads must be 0 or a positive integer");
    edit.cpu_threads = "0".to_string();
    assert_eq!(refusal(&edit), "UUID cannot be empty");
    edit.uuid = "u".to_string();
    assert_eq!(refusal(&edit), "Code cannot be empty");
    edit.code = "c".to_string();
    assert_eq!(refusal(&edit), "Blocks must be > 0");
}

#[test]
fn saving_restarts_a_running_worker() {
    let mut panel = SettingsPanel::new(config());
    panel.edit.nickname = "other".to_string();
    let saved = panel.submit().unwrap();
    assert_eq!(panel.current.user.nickname, "nick");
    let cmds = panel.saved(saved, true);
    assert_eq!(panel.current.user.nickname, "other");
    assert_eq!(panel.edit.feedback, Some((false, "Saved ✓".to_string())));
    assert_eq!(cmds.len(), 2);
    assert!(matches!(cmds[0], WorkerCmd::Stop));
    match &cmds[1] {
        WorkerCmd::Start(c) => assert_eq!(c.user.nickname, "other"),
        WorkerCmd::Stop => panic!("no start"),
    }
}

#[test]
fn saving_leaves_a_stopped_worker_alone() {
    let mut panel = SettingsPanel::new(config());
    let saved = panel.submit().unwrap();
    assert!(panel.saved(saved, false).is_empty());
}

#[test]
fn faults_are_fed_back() {
    let mut panel = SettingsPanel::new(config());
    panel.edit.code = "".to_string();
    assert!(panel.submit().is_none());
    assert_eq!(panel.edit.feedback, Some((true, "Code cannot be empty".to_string())));
    panel.save_failed("disk full");
    assert_eq!(panel.edit.feedback, Some((true, "Save failed: disk full".to_string())));
    panel.reset();
    assert_eq!(panel.edit.code, "secret");
    assert!(panel.edit.feedback.is_none());
}
