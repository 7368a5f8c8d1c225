use chezmoi_files::match_one;
use chezmoi_files::normalize_path;
use chezmoi_files::split_path;
use chezmoi_files::Config;
use chezmoi_files::PathMatcher;

fn pats(ps: &[&str]) -> Vec<String> {
    ps.iter().map(|p| p.to_string()).collect()
}

#[test]
fn test_exclusion_inclusion_override() {
    let matcher = PathMatcher::new(pats(&["*.txt"]), pats(&["important.txt"]));
    assert!(!matcher.exclude("important.txt"));
    assert!(matcher.exclude("other.txt"));
}

#[test]
fn test_glob_pattern_exclusion() {
    let matcher = PathMatcher::new(pats(&["fish_variables*"]), Vec::new());
    assert!(matcher.exclude("fish_variables"));
    assert!(matcher.exclude("fish_variables.bak"));
    assert!(!matcher.exclude("regular.txt"));
}

#[test]
fn test_glob_matches_single_segment() {
    assert!(match_one("config/fish_variables.bak", "fish_variables*"));
    assert!(match_one("deep/nested/cache", "cach?"));
    assert!(!match_one("deep/nested/cachet", "cach?"));
}

#[test]
fn test_substring_match_without_meta() {
    assert!(match_one(".DS_Store", "DS_Store"));
    assert!(match_one("sub/DS_Store", "DS_Store"));
    assert!(!match_one("store", "DS_Store"));
}

#[test]
fn test_question_mark_matches_one_character() {
    assert!(match_one("abc", "a?c"));
    assert!(!match_one("ac", "a?c"));
    assert!(!match_one("abbc", "a?c"));
}

#[test]
fn test_star_matches_any_run() {
    assert!(match_one("anything.tmp", "*.tmp"));
    assert!(match_one(".tmp", "*.tmp"));
    assert!(!match_one("tmpfile", "*.tmp"));
}

#[test]
fn test_bracket_class() {
    assert!(match_one("a.txt", "[abc].txt"));
    assert!(match_one("b.txt", "[abc].txt"));
    assert!(!match_one("d.txt", "[abc].txt"));
    assert!(match_one("b.txt", "[a-c].txt"));
    assert!(!match_one("x.txt", "[a-c].txt"));
    assert!(match_one("b.txt", "[!a].txt"));
    assert!(!match_one("a.txt", "[!a].txt"));
}

#[test]
fn test_bracket_class_literal_close() {
    assert!(match_one("]x", "[]]x"));
    assert!(!match_one("ax", "[]]x"));
}

#[test]
fn test_invalid_glob_falls_back_to_substring() {
    assert!(match_one("x[abc_y", "[abc"));
    assert!(!match_one("abc", "[abc"));
}

#[test]
fn test_is_excluded_and_is_included() {
    let matcher = PathMatcher::new(pats(&["*.log", "cache"]), pats(&["keep.log"]));
    assert!(matcher.is_excluded("run.log"));
    assert!(matcher.is_excluded("my_cache_dir"));
    assert!(!matcher.is_excluded("notes.md"));
    assert!(matcher.is_included("keep.log"));
    assert!(!matcher.is_included("run.log"));
    assert!(!matcher.exclude("keep.log"));
    assert!(matcher.exclude("run.log"));
}

#[test]
fn test_default_config_lists() {
    let config = Config::default_config();
    assert_eq!(
        config.excluded_files.files,
        vec!["DS_Store", "plugins/fish", "plugins/zsh"]
    );
    assert!(config.included_files.files.is_empty());
}

#[test]
fn test_default_config_excludes_noise() {
    let config = Config::default_config();
    let matcher = PathMatcher::new(
        config.excluded_files.files.clone(),
        config.included_files.files.clone(),
    );
    assert!(matcher.exclude(".DS_Store"));
    assert!(matcher.exclude("plugins/fish/functions"));
    assert!(!matcher.exclude("regular.txt"));
}

#[test]
fn test_normalize_path_strips_prefix_and_slashes() {
    assert_eq!(normalize_path("/home/u/proj/x/", "/home/u/proj"), "x");
    assert_eq!(normalize_path("a/b", ""), "a/b");
    assert_eq!(normalize_path("///", ""), "");
    assert_eq!(normalize_path("/abs/path", "/other"), "abs/path");
    assert_eq!(normalize_path("plain.txt", "/home/u"), "plain.txt");
}

#[test]
fn test_empty_pattern_matches_everything() {
    assert!(match_one("anything", ""));
    assert!(match_one("", ""));
    let matcher = PathMatcher::new(pats(&[""]), Vec::new());
    assert!(matcher.exclude("anything"));
}

#[test]
fn test_split_path_drops_empty_segments() {
    assert_eq!(split_path("a//b/"), vec!["a", "b"]);
    assert_eq!(split_path("x"), vec!["x"]);
    assert!(split_path("").is_empty());
    assert!(split_path("///").is_empty());
    assert_eq!(split_path("src/main.rs"), vec!["src", "main.rs"]);
}
