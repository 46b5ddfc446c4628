//! The saved configuration and where it lives.

use std::path::PathBuf;
use vstd::prelude::*;

verus! {

/// `std::path::PathBuf`, a file system path; it is only carried through.
#[verifier::external_type_specification]
#[verifier::external_body]
pub struct ExPathBuf(std::path::PathBuf);

/// Which kind of backend computes batches.
#[derive(Debug, Clone, Copy, PartialEq, Eq, Structural)]
pub enum ComputeBackend {
    Gpu,
    Cpu,
}

/// Everything that is configured.
#[derive(Debug)]
pub struct Config {
    pub user: UserConfig,
    pub compute: ComputeConfig,
}

/// Who the worker is to the server.
#[derive(Debug)]
pub struct UserConfig {
    pub uuid: String,
    pub nickname: String,
    pub code: String,
}

/// How batches are computed.
#[derive(Debug)]
pub struct ComputeConfig {
    /// Which backend to use.
    pub backend: ComputeBackend,
    /// GPU arch string (e.g. "gfx1201", "sm_86").
    pub gpu_arch: String,
    /// Number of GPU thread blocks.
    pub blocks: u32,
    /// Number of GPU threads per block.
    pub threads: u32,
    /// Number of CPU threads (0 = use all cores).
    pub cpu_threads: u32,
}

/// The contents of a `UserConfig`.
#[verifier::ext_equal]
pub struct UserModel {
    pub uuid: Seq<char>,
    pub nickname: Seq<char>,
    pub code: Seq<char>,
}

/// The contents of a `ComputeConfig`.
#[verifier::ext_equal]
pub struct ComputeModel {
    pub backend: ComputeBackend,
    pub gpu_arch: Seq<char>,
    pub blocks: u32,
    pub threads: u32,
    pub cpu_threads: u32,
}

/// The contents of a `Config`.
#[verifier::ext_equal]
pub struct ConfigModel {
    pub user: UserModel,
    pub compute: ComputeModel,
}

impl View for UserConfig {
    type V = UserModel;

    open spec fn view(&self) -> UserModel {
        UserModel { uuid: self.uuid@, nickname: self.nickname@, code: self.code@ }
    }
}

impl View for ComputeConfig {
    type V = ComputeModel;

    open spec fn view(&self) -> ComputeModel {
        ComputeModel {
            backend: self.backend,
            gpu_arch: self.gpu_arch@,
            blocks: self.blocks,
            threads: self.threads,
            cpu_threads: self.cpu_threads,
        }
    }
}

impl View for Config {
    type V = ConfigModel;

    open spec fn view(&self) -> ConfigModel {
        ConfigModel { user: self.user@, compute: self.compute@ }
    }
}

impl Clone for UserConfig {
    fn clone(&self) -> (r: Self)
        ensures
            r@ == self@,
            r.uuid@ == self.uuid@,
            r.nickname@ == self.nickname@,
            r.code@ == self.code@,
    {
        UserConfig {
            uuid: self.uuid.clone(),
            nickname: self.nickname.clone(),
            code: self.code.clone(),
        }
    }
}

impl Clone for ComputeConfig {
    fn clone(&self) -> (r: Self)
        ensures
            r@ == self@,
            r.backend == self.backend,
            r.gpu_arch@ == self.gpu_arch@,
            r.blocks == self.blocks,
            r.threads == self.threads,
            r.cpu_threads == self.cpu_threads,
    {
        ComputeConfig {
            backend: self.backend,
            gpu_arch: self.gpu_arch.clone(),
            blocks: self.blocks,
            threads: self.threads,
            cpu_threads: self.cpu_threads,
        }
    }
}

impl Clone for Config {
    fn clone(&self) -> (r: Self)
        ensures
            r@ == self@,
    {
        Config { user: self.user.clone(), compute: self.compute.clone() }
    }
}

impl Default for ComputeBackend {
    fn default() -> (r: Self)
        ensures
            r == ComputeBackend::Gpu,
    {
        ComputeBackend::Gpu
    }
}

impl ComputeBackend {
    /// The name that is shown for the backend.
    pub fn label(&self) -> (r: String)
        ensures
            r@ == match *self {
                ComputeBackend::Gpu => "GPU"@,
                ComputeBackend::Cpu => "CPU"@,
            },
    {
        match self {
            ComputeBackend::Gpu => "GPU".to_owned(),
            ComputeBackend::Cpu => "CPU".to_owned(),
        }
    }
}

pub fn default_gpu_arch() -> (r: String)
    ensures
        r@ == "gfx1201"@,
{
    "gfx1201".to_owned()
}

pub fn default_blocks() -> (r: u32)
    ensures
        r == 256,
{
    256
}

pub fn default_threads() -> (r: u32)
    ensures
        r == 256,
{
    256
}

/// What is used where nothing is configured.
pub open spec fn default_compute() -> ComputeModel {
    ComputeModel {
        backend: ComputeBackend::Gpu,
        gpu_arch: "gfx1201"@,
        blocks: 256,
        threads: 256,
        cpu_threads: 0,
    }
}

impl Default for ComputeConfig {
    fn default() -> (r: Self)
        ensures
            r@ == default_compute(),
            r.backend == ComputeBackend::Gpu,
            r.gpu_arch@ == "gfx1201"@,
            r.blocks == 256,
            r.threads == 256,
            r.cpu_threads == 0,
    {
        ComputeConfig {
            backend: ComputeBackend::Gpu,
            gpu_arch: default_gpu_arch(),
            blocks: default_blocks(),
            threads: default_threads(),
            cpu_threads: 0,
        }
    }
}

/// A place in the file system: `parts` one below the other, under `base` or,
/// without one, under the working directory.
#[derive(Debug)]
pub struct Location {
    pub base: Option<PathBuf>,
    pub parts: Vec<String>,
}

/// The contents of a `Location`.
#[verifier::ext_equal]
pub struct LocationModel {
    pub base: Option<PathBuf>,
    pub parts: Seq<Seq<char>>,
}

impl View for Location {
    type V = LocationModel;

    open spec fn view(&self) -> LocationModel {
        LocationModel { base: self.base, parts: self.parts@.map_values(|p: String| p@) }
    }
}

/// The directory of all files of the worker, given the configuration directory
/// of the platform.
pub open spec fn config_dir_at(base: Option<PathBuf>) -> LocationModel {
    LocationModel {
        base,
        parts: if base is Some {
            seq!["bogo-gpu"@]
        } else {
            seq![".config"@, "bogo-gpu"@]
        },
    }
}

/// The entry `name` of a directory.
pub open spec fn entry_of(dir: LocationModel, name: Seq<char>) -> LocationModel {
    LocationModel { base: dir.base, parts: dir.parts.push(name) }
}

/// Under the configuration directory of the platform the worker has a directory
/// of its own name; without one it has it under ".config" in the working
/// directory. A file of a directory lies right below it.
pub proof fn law_files_lie_in_a_directory_of_the_worker(
    base: Option<PathBuf>,
    name: Seq<char>,
    other: Seq<char>,
)
    ensures
        ({
            let dir = config_dir_at(base);
            let file = entry_of(dir, name);
            &&& dir.base == base
            &&& dir.parts.last() == "bogo-gpu"@
            &&& base is Some ==> dir.parts.len() == 1
            &&& base is None ==> dir.parts.len() == 2 && dir.parts[0] == ".config"@
            &&& file.base == base
            &&& file.parts.last() == name
            &&& file.parts.drop_last() == dir.parts
            &&& name != other ==> file != entry_of(dir, other)
        }),
{
    let dir = config_dir_at(base);
    assert(entry_of(dir, name).parts.drop_last() =~= dir.parts);
    assert(entry_of(dir, name).parts.last() == name);
    assert(entry_of(dir, other).parts.last() == other);
}

/// The configuration directory of the platform, by `dirs::config_dir`.
///
/// Nothing is claimed of it: it depends on the user and the system.
#[verifier::external_body]
fn platform_config_dir() -> (r: Option<PathBuf>) {
    dirs::config_dir()
}

impl Location {
    /// The entry `name` of this directory.
    pub fn join(self, name: &str) -> (r: Self)
        ensures
            r@ == entry_of(self@, name@),
            r.base == self.base,
            r.parts@.len() == self.parts@.len() + 1,
            r.parts@.last()@ == name@,
            forall|i: int|
                0 <= i < self.parts@.len() ==> #[trigger] r.parts@[i] == self.parts@[i],
    {
        let mut parts = self.parts;
        let ghost before = parts@;
        parts.push(name.to_owned());
        proof {
            assert(parts@.map_values(|p: String| p@) =~= before.map_values(|p: String| p@).push(
                name@,
            ));
        }
        Location { base: self.base, parts }
    }
}

impl Config {
    /// A first configuration for a user who has just given their credentials.
    pub fn for_user(uuid: String, nickname: String, code: String) -> (r: Self)
        ensures
            r@ == (ConfigModel {
                user: UserModel { uuid: uuid@, nickname: nickname@, code: code@ },
                compute: default_compute(),
            }),
            r.user.uuid == uuid,
            r.user.nickname == nickname,
            r.user.code == code,
            r.compute.backend == ComputeBackend::Gpu,
            r.compute.gpu_arch@ == "gfx1201"@,
            r.compute.blocks == 256,
            r.compute.threads == 256,
            r.compute.cpu_threads == 0,
    {
        Config { user: UserConfig { uuid, nickname, code }, compute: ComputeConfig::default() }
    }

    /// The directory of all files of the worker, under the given configuration
    /// directory of the platform.
    pub fn config_dir_under(base: Option<PathBuf>) -> (r: Location)
        ensures
            r@ == config_dir_at(base),
            r.base == base,
            r.parts@.len() > 0 && r.parts@.last()@ == "bogo-gpu"@,
            base is Some ==> r.parts@.len() == 1,
            base is None ==> r.parts@.len() == 2 && r.parts@[0]@ == ".config"@,
    {
        let mut parts: Vec<String> = Vec::new();
        if base.is_none() {
            parts.push(".config".to_owned());
        }
        parts.push("bogo-gpu".to_owned());
        proof {
            assert(parts@.map_values(|p: String| p@) =~= config_dir_at(base).parts);
        }
        Location { base, parts }
    }

    /// The directory of all files of the worker.
    pub fn config_dir() -> (r: Location)
        ensures
            r@ == config_dir_at(r.base),
    {
        Self::config_dir_under(platform_config_dir())
    }

    /// The configuration file.
    pub fn config_path() -> (r: Location)
        ensures
            r@ == entry_of(config_dir_at(r.base), "config.toml"@),
    {
        Self::config_dir().join("config.toml")
    }
}

} // verus!
