//! Editing the configuration.

use crate::config::{
    ComputeBackend, ComputeConfig, ComputeModel, Config, ConfigModel, UserConfig, UserModel,
};
use crate::text::{
    decimal, decimal_text, law_decimal_reads_back, law_trim_settles, parse_u32, spelled_u32,
    trimmed,
};
use crate::worker::{first_session, starting, SessionModel, StatsModel, WorkerCmd};
use vstd::prelude::*;
use vstd::string::*;

verus! {

/// The configuration as a user edits it.
#[derive(Debug)]
pub struct SettingsEdit {
    pub uuid: String,
    pub nickname: String,
    pub code: String,
    pub backend: ComputeBackend,
    pub gpu_arch: String,
    pub blocks: String,
    pub threads: String,
    pub cpu_threads: String,
    /// Feedback after saving: whether it is an error, and what it says.
    pub feedback: Option<(bool, String)>,
}

/// The contents of a `SettingsEdit`.
#[verifier::ext_equal]
pub struct EditModel {
    pub uuid: Seq<char>,
    pub nickname: Seq<char>,
    pub code: Seq<char>,
    pub backend: ComputeBackend,
    pub gpu_arch: Seq<char>,
    pub blocks: Seq<char>,
    pub threads: Seq<char>,
    pub cpu_threads: Seq<char>,
    pub feedback: Option<(bool, Seq<char>)>,
}

impl View for SettingsEdit {
    type V = EditModel;

    open spec fn view(&self) -> EditModel {
        EditModel {
            uuid: self.uuid@,
            nickname: self.nickname@,
            code: self.code@,
            backend: self.backend,
            gpu_arch: self.gpu_arch@,
            blocks: self.blocks@,
            threads: self.threads@,
            cpu_threads: self.cpu_threads@,
            feedback: match self.feedback {
                Some((is_error, message)) => Some((is_error, message@)),
                None => None,
            },
        }
    }
}

/// The fields that show a configuration.
pub open spec fn edit_of(config: ConfigModel) -> EditModel {
    EditModel {
        uuid: config.user.uuid,
        nickname: config.user.nickname,
        code: config.user.code,
        backend: config.compute.backend,
        gpu_arch: config.compute.gpu_arch,
        blocks: decimal(config.compute.blocks as nat),
        threads: decimal(config.compute.threads as nat),
        cpu_threads: decimal(config.compute.cpu_threads as nat),
        feedback: None,
    }
}

/// The configuration that the fields spell, or what is wrong with the first
/// field that is wrong. White space around the fields does not count.
pub open spec fn config_of(edit: EditModel) -> Result<ConfigModel, Seq<char>> {
    match (
        spelled_u32(trimmed(edit.blocks)),
        spelled_u32(trimmed(edit.threads)),
        spelled_u32(trimmed(edit.cpu_threads)),
    ) {
        (None, _, _) => Err("Blocks must be a positive integer"@),
        (_, None, _) => Err("Threads must be a positive integer"@),
        (_, _, None) => Err("CPU threads must be 0 or a positive integer"@),
        (Some(blocks), Some(threads), Some(cpu_threads)) => if trimmed(edit.uuid).len() == 0 {
            Err("UUID cannot be empty"@)
        } else if trimmed(edit.nickname).len() == 0 {
            Err("Nickname cannot be empty"@)
        } else if trimmed(edit.code).len() == 0 {
            Err("Code cannot be empty"@)
        } else if blocks == 0 {
            Err("Blocks must be > 0"@)
        } else if threads == 0 {
            Err("Threads must be > 0"@)
        } else {
            Ok(
                ConfigModel {
                    user: UserModel {
                        uuid: trimmed(edit.uuid),
                        nickname: trimmed(edit.nickname),
                        code: trimmed(edit.code),
                    },
                    compute: ComputeModel {
                        backend: edit.backend,
                        gpu_arch: trimmed(edit.gpu_arch),
                        blocks,
                        threads,
                        cpu_threads,
                    },
                },
            )
        },
    }
}

impl SettingsEdit {
    /// The fields that show a configuration.
    pub fn from_config(cfg: &Config) -> (r: Self)
        ensures
            r@ == edit_of(cfg@),
            r.uuid@ == cfg.user.uuid@,
            r.nickname@ == cfg.user.nickname@,
            r.code@ == cfg.user.code@,
            r.backend == cfg.compute.backend,
            r.gpu_arch@ == cfg.compute.gpu_arch@,
            r.blocks@ == decimal(cfg.compute.blocks as nat),
            r.threads@ == decimal(cfg.compute.threads as nat),
            r.cpu_threads@ == decimal(cfg.compute.cpu_threads as nat),
            r.feedback is None,
    {
        SettingsEdit {
            uuid: cfg.user.uuid.clone(),
            nickname: cfg.user.nickname.clone(),
            code: cfg.user.code.clone(),
            backend: cfg.compute.backend,
            gpu_arch: cfg.compute.gpu_arch.clone(),
            blocks: decimal_text(cfg.compute.blocks as u64),
            threads: decimal_text(cfg.compute.threads as u64),
            cpu_threads: decimal_text(cfg.compute.cpu_threads as u64),
            feedback: None,
        }
    }

    /// The configuration that the fields spell, or what is wrong with them.
    pub fn to_config(&self) -> (r: Result<Config, String>)
        ensures
            match r {
                Ok(config) => config_of(self@) == Ok::<ConfigModel, Seq<char>>(config@),
                Err(message) => config_of(self@) == Err::<ConfigModel, Seq<char>>(message@),
            },
            r matches Ok(config) ==> {
                &&& config.user.uuid@ == trimmed(self.uuid@)
                &&& config.user.nickname@ == trimmed(self.nickname@)
                &&& config.user.code@ == trimmed(self.code@)
                &&& config.compute.backend == self.backend
                &&& config.compute.gpu_arch@ == trimmed(self.gpu_arch@)
                &&& Some(config.compute.blocks) == spelled_u32(trimmed(self.blocks@))
                &&& Some(config.compute.threads) == spelled_u32(trimmed(self.threads@))
                &&& Some(config.compute.cpu_threads) == spelled_u32(trimmed(self.cpu_threads@))
            },
    {
        let blocks = match parse_u32(self.blocks.as_str().trim()) {
            Some(n) => n,
            None => return Err("Blocks must be a positive integer".to_owned()),
        };
        let threads = match parse_u32(self.threads.as_str().trim()) {
            Some(n) => n,
            None => return Err("Threads must be a positive integer".to_owned()),
        };
        let cpu_threads = match parse_u32(self.cpu_threads.as_str().trim()) {
            Some(n) => n,
            None => return Err("CPU threads must be 0 or a positive integer".to_owned()),
        };
        let uuid = self.uuid.as_str().trim();
        let nickname = self.nickname.as_str().trim();
        let code = self.code.as_str().trim();
        if uuid.is_empty() {
            return Err("UUID cannot be empty".to_owned());
        }
        if nickname.is_empty() {
            return Err("Nickname cannot be empty".to_owned());
        }
        if code.is_empty() {
            return Err("Code cannot be empty".to_owned());
        }
        if blocks == 0 {
            return Err("Blocks must be > 0".to_owned());
        }
        if threads == 0 {
            return Err("Threads must be > 0".to_owned());
        }
        Ok(
            Config {
                user: UserConfig {
                    uuid: uuid.to_owned(),
                    nickname: nickname.to_owned(),
                    code: code.to_owned(),
                },
                compute: ComputeConfig {
                    backend: self.backend,
                    gpu_arch: self.gpu_arch.as_str().trim().to_owned(),
                    blocks,
                    threads,
                    cpu_threads,
                },
            },
        )
    }
}

/// The settings page: the fields, and the configuration that was last saved.
#[derive(Debug)]
pub struct SettingsPanel {
    pub edit: SettingsEdit,
    pub current: Config,
}

/// The commands that put a saved configuration into effect: a running worker
/// is stopped and started again, one that is stopped stays so.
pub open spec fn takes_effect_by(cmds: Seq<WorkerCmd>, config: ConfigModel, running: bool) -> bool {
    if running {
        &&& cmds.len() == 2
        &&& cmds[0] is Stop
        &&& cmds[1] matches WorkerCmd::Start(c) && c@ == config
    } else {
        cmds.len() == 0
    }
}

impl SettingsPanel {
    /// A page that shows a configuration.
    pub fn new(current: Config) -> (r: Self)
        ensures
            r.edit@ == edit_of(current@),
            r.current@ == current@,
    {
        SettingsPanel { edit: SettingsEdit::from_config(&current), current }
    }

    /// The configuration to save, or `None` and a feedback that says what is
    /// wrong.
    pub fn submit(&mut self) -> (r: Option<Config>)
        ensures
            final(self).current == old(self).current,
            match config_of(old(self).edit@) {
                Ok(config) => r matches Some(c) && c@ == config && final(self).edit@ == old(
                    self,
                ).edit@,
                Err(message) => r is None && final(self).edit@ == (EditModel {
                    feedback: Some((true, message)),
                    ..old(self).edit@
                }),
            },
    {
        match self.edit.to_config() {
            Ok(config) => Some(config),
            Err(message) => {
                self.edit.feedback = Some((true, message));
                None
            },
        }
    }

    /// Takes note that a configuration has been saved; gives the commands that
    /// put it into effect.
    pub fn saved(&mut self, config: Config, running: bool) -> (r: Vec<WorkerCmd>)
        ensures
            final(self).current@ == config@,
            final(self).edit@ == (EditModel {
                feedback: Some((false, "Saved ✓"@)),
                ..old(self).edit@
            }),
            takes_effect_by(r@, config@, running),
            !running ==> r@.len() == 0,
            running ==> {
                &&& r@.len() == 2
                &&& r@[0] is Stop
                &&& r@[1] matches WorkerCmd::Start(c) && c@ == config@
            },
    {
        self.current = config.clone();
        self.edit.feedback = Some((false, "Saved ✓".to_owned()));
        let mut cmds: Vec<WorkerCmd> = Vec::new();
        if running {
            cmds.push(WorkerCmd::Stop);
            cmds.push(WorkerCmd::Start(config));
        }
        cmds
    }

    /// Takes note that saving failed.
    pub fn save_failed(&mut self, error: &str)
        ensures
            final(self).current == old(self).current,
            final(self).edit@ == (EditModel {
                feedback: Some((true, "Save failed: "@ + error@)),
                ..old(self).edit@
            }),
    {
        let mut message = "Save failed: ".to_owned();
        message.append(error);
        self.edit.feedback = Some((true, message));
    }

    /// Discards all edits.
    pub fn reset(&mut self)
        ensures
            final(self).current == old(self).current,
            final(self).edit@ == edit_of(old(self).current@),
    {
        self.edit = SettingsEdit::from_config(&self.current);
    }
}

/// Saving restarts a running worker with the saved configuration: the session
/// is stopped, and the next one runs with it. A stopped worker stays stopped.
pub proof fn law_saving_restarts(
    cmds: Seq<WorkerCmd>,
    config: ConfigModel,
    running: bool,
    stats: StatsModel,
)
    requires
        takes_effect_by(cmds, config, running),
    ensures
        running ==> cmds[0] is Stop,
        running ==> first_session(None, stats, cmds) == Some(
            SessionModel { config, stats: starting(stats), cmds: Seq::empty() },
        ),
        !running ==> first_session(None, stats, cmds) is None,
{
    reveal_with_fuel(first_session, 3);
    if running {
        assert(cmds.drop_first()[0] == cmds[1]);
        assert(cmds.drop_first().drop_first() =~= Seq::empty());
    }
}

/// What is saved is what the fields spell, each under its own name, without
/// white space around it.
pub proof fn law_saved_settings_are_those_of_the_fields(edit: EditModel)
    requires
        config_of(edit) is Ok,
    ensures
        ({
            let config = config_of(edit)->Ok_0;
            &&& config.user.uuid == trimmed(edit.uuid)
            &&& config.user.nickname == trimmed(edit.nickname)
            &&& config.user.code == trimmed(edit.code)
            &&& config.compute.backend == edit.backend
            &&& config.compute.gpu_arch == trimmed(edit.gpu_arch)
            &&& Some(config.compute.blocks) == spelled_u32(trimmed(edit.blocks))
            &&& Some(config.compute.threads) == spelled_u32(trimmed(edit.threads))
            &&& Some(config.compute.cpu_threads) == spelled_u32(trimmed(edit.cpu_threads))
        }),
{
}

/// The fields can be saved if and only if the three numbers are numbers, the
/// first two of them positive, and none of the user's fields is empty. What
/// keeps them from being saved is named: a number that is none before a field
/// that is empty, and that before a number that is zero.
pub proof fn law_what_keeps_settings_from_being_saved(edit: EditModel)
    ensures
        config_of(edit) is Ok <==> {
            &&& spelled_u32(trimmed(edit.blocks)) matches Some(n) && n > 0
            &&& spelled_u32(trimmed(edit.threads)) matches Some(n) && n > 0
            &&& spelled_u32(trimmed(edit.cpu_threads)) is Some
            &&& trimmed(edit.uuid).len() > 0
            &&& trimmed(edit.nickname).len() > 0
            &&& trimmed(edit.code).len() > 0
        },
        ({
            let no_blocks = spelled_u32(trimmed(edit.blocks)) is None;
            let no_threads = spelled_u32(trimmed(edit.threads)) is None;
            let no_cores = spelled_u32(trimmed(edit.cpu_threads)) is None;
            let no_uuid = trimmed(edit.uuid).len() == 0;
            let no_nickname = trimmed(edit.nickname).len() == 0;
            let no_code = trimmed(edit.code).len() == 0;
            let numbers = !no_blocks && !no_threads && !no_cores;
            let user = !no_uuid && !no_nickname && !no_code;
            let fails = |message: Seq<char>|
                config_of(edit) == Err::<ConfigModel, Seq<char>>(message);
            &&& no_blocks ==> fails("Blocks must be a positive integer"@)
            &&& !no_blocks && no_threads ==> fails("Threads must be a positive integer"@)
            &&& !no_blocks && !no_threads && no_cores ==> fails(
                "CPU threads must be 0 or a positive integer"@,
            )
            &&& numbers && no_uuid ==> fails("UUID cannot be empty"@)
            &&& numbers && !no_uuid && no_nickname ==> fails("Nickname cannot be empty"@)
            &&& numbers && !no_uuid && !no_nickname && no_code ==> fails("Code cannot be empty"@)
            &&& numbers && user && spelled_u32(trimmed(edit.blocks)) == Some(0u32) ==> fails(
                "Blocks must be > 0"@,
            )
            &&& numbers && user && spelled_u32(trimmed(edit.blocks)) != Some(0u32) && spelled_u32(
                trimmed(edit.threads),
            ) == Some(0u32) ==> fails("Threads must be > 0"@)
        }),
{
}

/// The fields show a configuration, each of them what has its name.
pub proof fn law_fields_show_the_configuration(config: ConfigModel)
    ensures
        ({
            let edit = edit_of(config);
            &&& edit.uuid == config.user.uuid
            &&& edit.nickname == config.user.nickname
            &&& edit.code == config.user.code
            &&& edit.backend == config.compute.backend
            &&& edit.gpu_arch == config.compute.gpu_arch
            &&& spelled_u32(edit.blocks) == Some(config.compute.blocks)
            &&& spelled_u32(edit.threads) == Some(config.compute.threads)
            &&& spelled_u32(edit.cpu_threads) == Some(config.compute.cpu_threads)
            &&& edit.feedback is None
        }),
{
    law_decimal_reads_back(config.compute.blocks as nat);
    law_decimal_reads_back(config.compute.threads as nat);
    law_decimal_reads_back(config.compute.cpu_threads as nat);
}

/// Whether text has neither white space around it nor nothing in it.
pub open spec fn is_solid(s: Seq<char>) -> bool {
    s.len() > 0 && trimmed(s) == s
}

/// Whether a configuration can come out of the fields.
pub open spec fn is_savable(config: ConfigModel) -> bool {
    &&& is_solid(config.user.uuid)
    &&& is_solid(config.user.nickname)
    &&& is_solid(config.user.code)
    &&& trimmed(config.compute.gpu_arch) == config.compute.gpu_arch
    &&& config.compute.blocks > 0
    &&& config.compute.threads > 0
}

/// Showing a configuration and saving it unchanged keeps it.
pub proof fn law_unchanged_settings_keep(config: ConfigModel)
    requires
        is_savable(config),
    ensures
        config_of(edit_of(config)) == Ok::<ConfigModel, Seq<char>>(config),
{
    law_decimal_reads_back(config.compute.blocks as nat);
    law_decimal_reads_back(config.compute.threads as nat);
    law_decimal_reads_back(config.compute.cpu_threads as nat);
    assert(config_of(edit_of(config))->Ok_0 =~= config);
}

/// Whatever is saved can be shown and saved again without change.
pub proof fn law_saved_settings_are_savable(edit: EditModel)
    requires
        config_of(edit) is Ok,
    ensures
        is_savable(config_of(edit)->Ok_0),
{
    law_trim_settles(edit.uuid);
    law_trim_settles(edit.nickname);
    law_trim_settles(edit.code);
    law_trim_settles(edit.gpu_arch);
}

} // verus!
