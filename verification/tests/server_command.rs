use lalrpop_lsp::server_command::{
    language_server_command, merge_environment, CommandSettings, SERVER_BINARY,
};

fn pair(k: &str, v: &str) -> (String, String) {
    (k.to_owned(), v.to_owned())
}

fn shell() -> Vec<(String, String)> {
    vec![pair("PATH", "/usr/bin"), pair("HOME", "/home/me"), pair("EDITOR", "zed")]
}

#[test]
fn configured_path_wins_over_lookup() {
    let settings = CommandSettings {
        path: Some("/opt/lalrpop-lsp".to_owned()),
        arguments: Some(vec!["--stdio".to_owned()]),
        env: None,
    };
    let command = language_server_command(
        Some(settings),
        || Some("/usr/bin/lalrpop-lsp".to_owned()),
        shell,
    )
    .unwrap();

    assert_eq!(command.command, "/opt/lalrpop-lsp");
    assert_eq!(command.args, vec!["--stdio".to_owned()]);
}

#[test]
fn binary_found_on_path_when_nothing_configured() {
    let command =
        language_server_command(None, || Some("/usr/bin/lalrpop-lsp".to_owned()), shell).unwrap();

    assert_eq!(command.command, "/usr/bin/lalrpop-lsp");
    assert!(command.args.is_empty());
    assert_eq!(
        command.env,
        vec![pair("EDITOR", "zed"), pair("HOME", "/home/me"), pair("PATH", "/usr/bin")]
    );
}

#[test]
fn settings_without_path_fall_back_to_lookup() {
    let settings = CommandSettings { path: None, arguments: None, env: None };
    let command =
        language_server_command(Some(settings), || Some("/bin/lalrpop-lsp".to_owned()), Vec::new)
            .unwrap();

    assert_eq!(command.command, "/bin/lalrpop-lsp");
    assert!(command.env.is_empty());
}

#[test]
fn missing_binary_is_reported() {
    let err = language_server_command(None, || None, shell).unwrap_err();

    assert_eq!(
        err,
        "lalrpop-lsp was not found in PATH. Install it with `cargo install --git \
         https://github.com/LighghtEeloo/lalrpop-lsp.git --locked`, or configure \
         `lsp.lalrpop-lsp.binary.path` in Zed settings."
    );
    assert!(err.starts_with(SERVER_BINARY));
}

#[test]
fn configured_variables_override_the_shell() {
    let settings = CommandSettings {
        path: None,
        arguments: None,
        env: Some(vec![pair("RUST_LOG", "debug"), pair("PATH", "/opt/bin"), pair("RUST_LOG", "info")]),
    };
    let command =
        language_server_command(Some(settings), || Some("lalrpop-lsp".to_owned()), shell).unwrap();

    assert_eq!(
        command.env,
        vec![
            pair("EDITOR", "zed"),
            pair("HOME", "/home/me"),
            pair("PATH", "/opt/bin"),
            pair("RUST_LOG", "info"),
        ]
    );
}

#[test]
fn merged_environment_is_sorted_by_bytes() {
    let shell = vec![pair("b", "1"), pair("B", "2"), pair("a", "3"), pair("b", "4"), pair("ab", "5")];
    let env = merge_environment(&shell, &None);

    assert_eq!(env, vec![pair("B", "2"), pair("a", "3"), pair("ab", "5"), pair("b", "4")]);
}

#[test]
fn merged_environment_with_no_shell() {
    let env = merge_environment(&Vec::new(), &Some(vec![pair("X", "1")]));

    assert_eq!(env, vec![pair("X", "1")]);
}
