use beacon_core::cli::Cli;
use beacon_core::paths::{profile_dir, profile_dir_with};

#[test]
fn a_given_profile_directory_wins() {
    assert_eq!(profile_dir_with(Some("/tmp/scratch".into()), Some("/home/a/.local/share".into())), "/tmp/scratch");
    assert_eq!(profile_dir(Some("/tmp/scratch".into())), "/tmp/scratch");
}

#[test]
fn the_profile_lives_under_the_platform_data_directory() {
    assert_eq!(profile_dir_with(None, Some("/home/a/.local/share".into())), "/home/a/.local/share/gosub-beacon");
    assert_eq!(profile_dir_with(None, Some("/data/".into())), "/data/gosub-beacon");
    assert_eq!(profile_dir_with(None, Some(String::new())), "gosub-beacon");
}

#[test]
fn without_a_platform_directory_the_working_directory_is_used() {
    assert_eq!(profile_dir_with(None, None), ".");
}

#[test]
fn a_command_line_without_arguments_parses_to_the_defaults() {
    let cli = Cli::default();
    assert!(cli.urls.is_empty());
    assert!(!cli.private);
    assert_eq!(cli.user_data_dir, None);
}

#[test]
fn without_a_flag_the_profile_is_the_platform_one_or_the_working_directory() {
    let dir = profile_dir(None);
    assert!(dir == "." || dir.ends_with("gosub-beacon"), "{dir}");
}
