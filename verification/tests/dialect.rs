use history_search::dialect::{
    dialect_of, last_index, normalize, normalize_all, resolve_dialect, shell_name, ShellDialect,
};

#[test]
fn generic_lines_are_left_as_they_are() {
    assert_eq!(normalize("ls -la", ShellDialect::Generic), "ls -la");
    assert_eq!(normalize(": 100:0;ls -la", ShellDialect::Generic), ": 100:0;ls -la");
    assert_eq!(normalize("", ShellDialect::Generic), "");
}

#[test]
fn extended_lines_give_the_command() {
    assert_eq!(normalize(": 100:0;ls -la", ShellDialect::ZshExtended), "ls -la");
    assert_eq!(normalize(": 101:0;cd /tmp", ShellDialect::ZshExtended), "cd /tmp");
    assert_eq!(normalize(";x", ShellDialect::ZshExtended), "x");
}

#[test]
fn extended_lines_are_cut_at_the_last_semicolon() {
    assert_eq!(normalize(": 1:0;echo a; echo b", ShellDialect::ZshExtended), " echo b");
    assert_eq!(normalize("a;b;c", ShellDialect::ZshExtended), "c");
    assert_eq!(normalize(": 1:0;ls;", ShellDialect::ZshExtended), "");
    assert_eq!(normalize(": 1:0;é;ü", ShellDialect::ZshExtended), "ü");
}

#[test]
fn extended_lines_without_a_semicolon_give_nothing() {
    assert_eq!(normalize("ls -la", ShellDialect::ZshExtended), "");
    assert_eq!(normalize("", ShellDialect::ZshExtended), "");
}

#[test]
fn normalizing_twice() {
    for raw in ["ls -la", "", "no semicolon here"] {
        let once = normalize(raw, ShellDialect::ZshExtended);
        let twice = normalize(&once, ShellDialect::ZshExtended);
        assert_eq!(twice, once);
    }
    for raw in ["ls -la", "", ": 100:0;ls -la", "a;b"] {
        let once = normalize(raw, ShellDialect::Generic);
        let twice = normalize(&once, ShellDialect::Generic);
        assert_eq!(twice, once);
    }
    let once = normalize("a;b", ShellDialect::ZshExtended);
    let twice = normalize(&once, ShellDialect::ZshExtended);
    assert_eq!(once, "b");
    assert_eq!(twice, "");
}

#[test]
fn normalize_all_keeps_the_order() {
    let raws =
        vec![": 100:0;ls -la".to_string(), ": 101:0;cd /tmp".to_string(), "ls -la".to_string()];
    assert_eq!(normalize_all(&raws, ShellDialect::ZshExtended), vec!["ls -la", "cd /tmp", ""]);
    assert_eq!(normalize_all(&raws, ShellDialect::Generic), raws);
    assert_eq!(normalize_all(&Vec::new(), ShellDialect::ZshExtended), Vec::<String>::new());
}

#[test]
fn last_index_finds_the_last_separator() {
    let chars: Vec<char> = "a/b/c".chars().collect();
    assert_eq!(last_index(&chars, '/'), Some(3));
    assert_eq!(last_index(&chars, 'a'), Some(0));
    assert_eq!(last_index(&chars, 'x'), None);
    assert_eq!(last_index(&Vec::new(), '/'), None);
}

#[test]
fn shell_name_is_the_trailing_segment() {
    assert_eq!(shell_name("/bin/zsh"), "zsh");
    assert_eq!(shell_name("/usr/local/bin/fish"), "fish");
    assert_eq!(shell_name("zsh"), "zsh");
    assert_eq!(shell_name("/bin/"), "");
    assert_eq!(shell_name(""), "");
}

#[test]
fn only_zsh_has_the_extended_dialect() {
    assert_eq!(dialect_of("zsh"), ShellDialect::ZshExtended);
    assert_eq!(dialect_of("bash"), ShellDialect::Generic);
    assert_eq!(dialect_of("zsh5"), ShellDialect::Generic);
    assert_eq!(dialect_of("zs"), ShellDialect::Generic);
    assert_eq!(dialect_of("Zsh"), ShellDialect::Generic);
    assert_eq!(dialect_of(""), ShellDialect::Generic);
}

#[test]
fn the_dialect_follows_the_shell_found() {
    assert_eq!(resolve_dialect(Some("/bin/zsh")), ShellDialect::ZshExtended);
    assert_eq!(resolve_dialect(Some("/usr/bin/zsh")), ShellDialect::ZshExtended);
    assert_eq!(resolve_dialect(Some("zsh")), ShellDialect::ZshExtended);
    assert_eq!(resolve_dialect(Some("/bin/bash")), ShellDialect::Generic);
    assert_eq!(resolve_dialect(Some("/zsh/bash")), ShellDialect::Generic);
    assert_eq!(resolve_dialect(None), ShellDialect::Generic);
}
