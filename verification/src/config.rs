//! The filtering configuration: which patterns exclude a path, and which
//! exempt one.

use vstd::prelude::*;
use vstd::string::StringExecFns;

verus! {

/// A list of file patterns.
pub struct FileList {
    /// The file patterns to match against.
    pub files: Vec<String>,
}

/// Configuration for file filtering: lists of patterns to exclude, and of
/// patterns that exempt a path from every exclusion.
pub struct Config {
    /// Patterns whose match excludes a path from the tree.
    pub excluded_files: FileList,
    /// Patterns whose match overrides the exclusions.
    pub included_files: FileList,
}

impl Config {
    /// The built-in configuration: a fixed list of common noise entries to
    /// exclude, and nothing to include.
    pub fn default_config() -> (c: Self)
        ensures
            c.excluded_files.files.deep_view() == seq![
                "DS_Store"@,
                "plugins/fish"@,
                "plugins/zsh"@,
            ],
            c.included_files.files.deep_view() == Seq::<Seq<char>>::empty(),
    {
        let mut excluded: Vec<String> = Vec::new();
        excluded.push(String::from_str("DS_Store"));
        excluded.push(String::from_str("plugins/fish"));
        excluded.push(String::from_str("plugins/zsh"));
        let c = Config {
            excluded_files: FileList { files: excluded },
            included_files: FileList { files: Vec::new() },
        };
        proof {
            assert(c.excluded_files.files.deep_view() =~= seq![
                "DS_Store"@,
                "plugins/fish"@,
                "plugins/zsh"@,
            ]);
            assert(c.included_files.files.deep_view() =~= Seq::<Seq<char>>::empty());
        }
        c
    }
}

} // verus!
