//! The configuration of one run, read from the command line's arguments.

use crate::hash::HashAlgorithm;
use crate::hash::lowercase;
use crate::paths::remove_end_slash;
use crate::paths::without_trailing_separators;
use crate::text::same_text;
use vstd::prelude::*;

verus! {

/// What one run works on: the roots of the two trees, each without a
/// trailing separator, the hash algorithm, and the three places that the run
/// writes to.
#[derive(Debug, PartialEq, Eq)]
pub struct Config {
    /// The root of the old tree.
    pub old_root: String,
    /// The root of the new tree.
    pub new_root: String,
    /// The algorithm for file identities and for the manifest.
    pub algorithm: HashAlgorithm,
    /// The directory in which the changed part of the new tree is staged.
    pub staging_dir: String,
    /// The file that receives the archive.
    pub archive_path: String,
    /// The file that receives the manifest.
    pub manifest_path: String,
}

/// Why the arguments give no configuration.
#[derive(Debug, PartialEq, Eq)]
pub enum ConfigError {
    /// One of the two roots is missing.
    MissingArguments,
    /// The name given after `--hash` selects no algorithm.
    UnknownAlgorithm { name: String },
}

/// The mathematical value of a [`Config`].
pub struct ConfigView {
    pub old_root: Seq<char>,
    pub new_root: Seq<char>,
    pub algorithm: HashAlgorithm,
    pub staging_dir: Seq<char>,
    pub archive_path: Seq<char>,
    pub manifest_path: Seq<char>,
}

/// The mathematical value of a [`ConfigError`].
pub enum ConfigErrorView {
    MissingArguments,
    UnknownAlgorithm { name: Seq<char> },
}

impl View for Config {
    type V = ConfigView;

    open spec fn view(&self) -> ConfigView {
        ConfigView {
            old_root: self.old_root@,
            new_root: self.new_root@,
            algorithm: self.algorithm,
            staging_dir: self.staging_dir@,
            archive_path: self.archive_path@,
            manifest_path: self.manifest_path@,
        }
    }
}

impl View for ConfigError {
    type V = ConfigErrorView;

    open spec fn view(&self) -> ConfigErrorView {
        match self {
            ConfigError::MissingArguments => ConfigErrorView::MissingArguments,
            ConfigError::UnknownAlgorithm { name } => ConfigErrorView::UnknownAlgorithm {
                name: name@,
            },
        }
    }
}

/// Whether the arguments name a hash algorithm: the flag `--hash` in fourth
/// place, followed by a name.
pub open spec fn names_algorithm(args: Seq<Seq<char>>) -> bool {
    args.len() >= 5 && args[3] == "--hash"@
}

/// The configuration that the arguments give. The first argument is the name
/// of the program, the next two are the roots. Without `--hash` the
/// algorithm is XXH64. The places written to are always the same three, in
/// the working directory.
pub open spec fn config_of(args: Seq<Seq<char>>) -> Result<ConfigView, ConfigErrorView> {
    if args.len() < 3 {
        Err(ConfigErrorView::MissingArguments)
    } else if names_algorithm(args) && HashAlgorithm::named(lowercase(args[4])) is None {
        Err(ConfigErrorView::UnknownAlgorithm { name: args[4] })
    } else {
        Ok(
            ConfigView {
                old_root: without_trailing_separators(args[1]),
                new_root: without_trailing_separators(args[2]),
                algorithm: if names_algorithm(args) {
                    HashAlgorithm::named(lowercase(args[4]))->0
                } else {
                    HashAlgorithm::XxHash64
                },
                staging_dir: "__package"@,
                archive_path: "package.zip"@,
                manifest_path: "info.json"@,
            },
        )
    }
}

/// Reads the configuration of a run from the arguments of the command line.
pub fn parse_args(args: &Vec<String>) -> (r: Result<Config, ConfigError>)
    ensures
        match r {
            Ok(config) => config_of(args.deep_view()) == Ok::<ConfigView, ConfigErrorView>(config@),
            Err(error) => config_of(args.deep_view()) == Err::<ConfigView, ConfigErrorView>(
                error@,
            ),
        },
{
    if args.len() < 3 {
        return Err(ConfigError::MissingArguments);
    }
    let mut algorithm = HashAlgorithm::XxHash64;
    if args.len() >= 5 && same_text(args[3].as_str(), "--hash") {
        match HashAlgorithm::from_str(args[4].as_str()) {
            Some(named) => {
                algorithm = named;
            },
            None => {
                return Err(ConfigError::UnknownAlgorithm { name: args[4].clone() });
            },
        }
    }
    let old_root = remove_end_slash(args[1].as_str());
    let new_root = remove_end_slash(args[2].as_str());
    Ok(
        Config {
            old_root,
            new_root,
            algorithm,
            staging_dir: "__package".to_owned(),
            archive_path: "package.zip".to_owned(),
            manifest_path: "info.json".to_owned(),
        },
    )
}

} // verus!
