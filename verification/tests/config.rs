use bogo_gpu::config::{
    default_blocks, default_gpu_arch, default_threads, ComputeBackend, ComputeConfig, Config,
};
use bogo_gpu::history::{best_path, history_path};
use std::path::PathBuf;

#[test]
fn nothing_configured_means_the_defaults() {
    let compute = ComputeConfig::default();
    assert_eq!(compute.backend, ComputeBackend::Gpu);
    assert_eq!(compute.gpu_arch, "gfx1201");
    assert_eq!((compute.blocks, compute.threads, compute.cpu_threads), (256, 256, 0));
    assert_eq!(default_gpu_arch(), "gfx1201");
    assert_eq!((default_blocks(), default_threads()), (256, 256));
    assert_eq!(ComputeBackend::default(), ComputeBackend::Gpu);
}

#[test]
fn backends_have_labels() {
    assert_eq!(ComputeBackend::Gpu.label(), "GPU");
    assert_eq!(ComputeBackend::Cpu.label(), "CPU");
}

#[test]
fn a_new_user_gets_default_settings() {
    let config = Config::for_user("u".to_string(), "n".to_string(), "c".to_string());
    assert_eq!(config.user.uuid, "u");
    assert_eq!(config.user.nickname, "n");
    assert_eq!(config.user.code, "c");
    assert_eq!(config.compute.blocks, 256);
    let copy = config.clone();
    assert_eq!(copy.user.uuid, "u");
    assert_eq!(copy.compute.gpu_arch, "gfx1201");
}

#[test]
fn files_lie_in_the_configuration_directory_of_the_platform() {
    let base = dirs::config_dir();
    let parts: Vec<&str> =
        if base.is_some() { vec!["bogo-gpu"] } else { vec![".config", "bogo-gpu"] };
    let dir = Config::config_dir();
    assert_eq!(dir.base, base);
    assert_eq!(dir.parts, parts);
    for (path, name) in [
        (Config::config_path(), "config.toml"),
        (history_path(), "arrays.json"),
        (best_path(), "best.json"),
    ] {
        assert_eq!(path.base, base);
        assert_eq!(path.parts[..parts.len()], parts[..]);
        assert_eq!(path.parts[parts.len()..], [name.to_string()]);
    }
}

#[test]
fn without_a_platform_directory_files_lie_below_the_working_directory() {
    let dir = Config::config_dir_under(None);
    assert_eq!(dir.base, None);
    assert_eq!(dir.parts, [".config".to_string(), "bogo-gpu".to_string()]);
    let under = Config::config_dir_under(Some(PathBuf::from("/etc"))).join("x");
    assert_eq!(under.base, Some(PathBuf::from("/etc")));
    assert_eq!(under.parts, ["bogo-gpu".to_string(), "x".to_string()]);
}
