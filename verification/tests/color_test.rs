use chezmoi_files::ColorScheme;

#[test]
fn test_color_for_source_file() {
    let scheme = ColorScheme::new();
    assert_eq!(scheme.get_color_code_for_file("main.rs"), "\x1b[1;31m");
    assert_eq!(scheme.get_color_code_for_file("tool.py"), "\x1b[1;31m");
}

#[test]
fn test_color_for_shell_and_config_files() {
    let scheme = ColorScheme::new();
    assert_eq!(scheme.get_color_code_for_file("init.fish"), "\x1b[1;32m");
    assert_eq!(scheme.get_color_code_for_file("Cargo.toml"), "\x1b[1;33m");
    assert_eq!(scheme.get_color_code_for_file("notes.txt"), "\x1b[1;36m");
    assert_eq!(scheme.get_color_code_for_file("menu.plist"), "\x1b[1;35m");
}

#[test]
fn test_color_for_unknown_extension() {
    let scheme = ColorScheme::new();
    assert_eq!(scheme.get_color_code_for_file("file.xyz"), "\x1b[1;34m");
    assert_eq!(scheme.get_color_code_for_file("noext"), "\x1b[1;34m");
}

#[test]
fn test_colored_line_for_folder() {
    let scheme = ColorScheme::new();
    let line = scheme.colored_line("└──", "src");
    assert_eq!(line, "└── \x1b[1;37msrc\x1b[0m");
}

#[test]
fn test_colored_line_for_file() {
    let scheme = ColorScheme::new();
    let line = scheme.colored_line("    ├──", "a.rs");
    assert_eq!(line, "    ├── \x1b[1;31ma.rs\x1b[0m");
}
