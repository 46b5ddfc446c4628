use bogo_gpu::cli::{ConfigSource, Mode};

fn mode(args: &[&str]) -> Mode {
    let args: Vec<String> = args.iter().map(|a| a.to_string()).collect();
    Mode::from_args(&args)
}

#[test]
fn flags_choose_the_mode() {
    assert_eq!(mode(&[]), Mode::Windowed);
    assert_eq!(mode(&["bogo-gpu"]), Mode::Windowed);
    assert_eq!(mode(&["bogo-gpu", "--headless"]), Mode::Headless);
    assert_eq!(mode(&["bogo-gpu", "x", "-H"]), Mode::Headless);
    assert_eq!(mode(&["bogo-gpu", "-h"]), Mode::Help);
    assert_eq!(mode(&["bogo-gpu", "--help"]), Mode::Help);
    assert_eq!(mode(&["bogo-gpu", "--headless", "--help"]), Mode::Help);
    assert_eq!(mode(&["bogo-gpu", "--HELP", "headless", "-hH"]), Mode::Windowed);
}

#[test]
fn a_headless_run_needs_a_saved_configuration() {
    assert_eq!(Mode::Windowed.config_source(true), ConfigSource::Saved);
    assert_eq!(Mode::Headless.config_source(true), ConfigSource::Saved);
    assert_eq!(Mode::Windowed.config_source(false), ConfigSource::Prompt);
    assert_eq!(Mode::Headless.config_source(false), ConfigSource::Missing);
}
