//! The command line, the token that comes through standard input, and the
//! name of the instance mutex.

use deimos_agent::arguments::{argument_value, managed_token, normalize_stdin_token, TokenSource};
use deimos_agent::instance::AGENT_MUTEX_NAME;

fn words(list: &[&str]) -> Vec<String> {
    list.iter().map(|word| word.to_string()).collect()
}

#[test]
fn managed_token_argument_remains_backward_compatible() {
    let args = vec![
        "deimos-agent".to_string(),
        "--token".to_string(),
        "legacy-token".to_string(),
    ];
    assert_eq!(
        argument_value(&args, "--token").as_deref(),
        Some("legacy-token")
    );
}

#[test]
fn stdin_tokens_trim_only_line_endings() {
    assert_eq!(
        normalize_stdin_token("  token value  \r\n").unwrap(),
        "  token value  "
    );
}

#[test]
fn stdin_tokens_are_bounded_and_nonempty() {
    assert!(normalize_stdin_token("\n").is_err());
    assert!(normalize_stdin_token(&"a".repeat(256)).is_ok());
    assert!(normalize_stdin_token(&"a".repeat(257)).is_err());
}

#[test]
fn instance_mutex_is_stable_and_does_not_contain_a_path() {
    assert_eq!(AGENT_MUTEX_NAME, r"Local\DeimosWizard101Agent");
    assert!(!AGENT_MUTEX_NAME.contains(':'));
    assert!(!AGENT_MUTEX_NAME.contains('/'));
}

#[test]
fn stdin_tokens_are_counted_in_bytes() {
    assert!(normalize_stdin_token(&"é".repeat(128)).is_ok());
    assert_eq!(
        normalize_stdin_token(&"é".repeat(129)),
        Err("managed authentication token from stdin has an invalid length")
    );
    assert_eq!(normalize_stdin_token("a\nb\n\r\n").unwrap(), "a\nb");
}

#[test]
fn an_option_needs_a_value_behind_it() {
    assert_eq!(argument_value(&words(&["agent", "--token"]), "--token"), None);
    assert_eq!(
        argument_value(&words(&["a", "--p", "1", "--p", "2"]), "--p").as_deref(),
        Some("1")
    );
    assert_eq!(argument_value(&[], "--p"), None);
}

#[test]
fn a_token_on_the_command_line_comes_before_standard_input() {
    assert!(matches!(
        managed_token(&words(&["agent", "--token-stdin", "--token", "given"])),
        TokenSource::Given(token) if token == "given"
    ));
    assert!(matches!(
        managed_token(&words(&["agent", "--token-stdin"])),
        TokenSource::Stdin
    ));
    assert!(matches!(
        managed_token(&words(&["agent", "game.exe"])),
        TokenSource::Absent
    ));
}
