use updatepack::config::parse_args;
use updatepack::config::Config;
use updatepack::config::ConfigError;
use updatepack::hash::HashAlgorithm;

fn args(list: &[&str]) -> Vec<String> {
    list.iter().map(|s| s.to_string()).collect()
}

fn config(old_root: &str, new_root: &str, algorithm: HashAlgorithm) -> Config {
    Config {
        old_root: old_root.to_string(),
        new_root: new_root.to_string(),
        algorithm,
        staging_dir: "__package".to_string(),
        archive_path: "package.zip".to_string(),
        manifest_path: "info.json".to_string(),
    }
}

#[test]
fn parse_args_wants_two_roots() {
    assert_eq!(parse_args(&args(&[])), Err(ConfigError::MissingArguments));
    assert_eq!(parse_args(&args(&["prog"])), Err(ConfigError::MissingArguments));
    assert_eq!(parse_args(&args(&["prog", "old"])), Err(ConfigError::MissingArguments));
}

#[test]
fn parse_args_defaults_to_xxhash() {
    assert_eq!(
        parse_args(&args(&["prog", "old", "new"])),
        Ok(config("old", "new", HashAlgorithm::XxHash64))
    );
}

#[test]
fn parse_args_takes_trailing_separators_off() {
    assert_eq!(
        parse_args(&args(&["prog", "old/", "/srv/new/"])),
        Ok(config("old", "/srv/new", HashAlgorithm::XxHash64))
    );
}

#[test]
fn parse_args_reads_the_algorithm() {
    let config = parse_args(&args(&["prog", "old", "new", "--hash", "md5"])).unwrap();
    assert_eq!(config.algorithm, HashAlgorithm::Md5);
    let config = parse_args(&args(&["prog", "old", "new", "--hash", "XXHASH"])).unwrap();
    assert_eq!(config.algorithm, HashAlgorithm::XxHash64);
    let config = parse_args(&args(&["prog", "old", "new", "--hash", "Md5", "more"])).unwrap();
    assert_eq!(config.algorithm, HashAlgorithm::Md5);
}

#[test]
fn parse_args_refuses_an_unknown_algorithm() {
    assert_eq!(
        parse_args(&args(&["prog", "old", "new", "--hash", "sha256"])),
        Err(ConfigError::UnknownAlgorithm { name: "sha256".to_string() })
    );
}

#[test]
fn parse_args_refuses_an_unknown_algorithm_before_anything_else() {
    assert_eq!(
        parse_args(&args(&["prog", "old/", "new/", "--hash", ""])),
        Err(ConfigError::UnknownAlgorithm { name: String::new() })
    );
}

#[test]
fn parse_args_ignores_a_flag_without_value() {
    let config = parse_args(&args(&["prog", "old", "new", "--hash"])).unwrap();
    assert_eq!(config.algorithm, HashAlgorithm::XxHash64);
}

#[test]
fn parse_args_ignores_other_arguments() {
    let config = parse_args(&args(&["prog", "old", "new", "--other", "md5"])).unwrap();
    assert_eq!(config.algorithm, HashAlgorithm::XxHash64);
}

#[test]
fn parse_args_writes_to_the_three_usual_places() {
    let config = parse_args(&args(&["prog", "old", "new", "--hash", "md5"])).unwrap();
    assert_eq!(config.staging_dir, "__package");
    assert_eq!(config.archive_path, "package.zip");
    assert_eq!(config.manifest_path, "info.json");
}

#[test]
fn parse_args_takes_every_trailing_separator_off() {
    assert_eq!(
        parse_args(&args(&["prog", "old//", "/srv/new///"])),
        Ok(config("old", "/srv/new", HashAlgorithm::XxHash64))
    );
}
