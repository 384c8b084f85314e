//! Tests of the merged tree: building, merging with duplicate detection,
//! and the three lookup strategies.

use humor::config::{CommandEntry, Config};
use humor::error::HumorError;

fn entry(domain: &str, category: &str, name: &str, command: &str) -> CommandEntry {
    CommandEntry {
        domain: domain.to_string(),
        category: category.to_string(),
        name: name.to_string(),
        command: command.to_string(),
    }
}

fn tree_of(entries: Vec<CommandEntry>) -> Config {
    let mut config = Config::new();
    config.merge_entries(&entries).unwrap();
    config
}

fn args(tokens: &[&str]) -> Vec<String> {
    tokens.iter().map(|t| t.to_string()).collect()
}

#[test]
fn test_load_config() {
    let config = tree_of(vec![
        entry("rust", "build", "debug", "cargo build"),
        entry("rust", "build", "release", "cargo build --release"),
    ]);
    assert_eq!(
        config.find_command(&args(&["rust", "build", "debug"])).unwrap(),
        "cargo build"
    );
    assert_eq!(
        config.find_command(&args(&["rust", "build", "release"])).unwrap(),
        "cargo build --release"
    );
}

#[test]
fn test_merge_configs() {
    let base = tree_of(vec![entry("rust", "build", "debug", "cargo build")]);
    let other = tree_of(vec![
        entry("rust", "test", "unit", "cargo test"),
        entry("python", "run", "script", "python script.py"),
    ]);
    let merged = Config::merge_configs(base, other).unwrap();
    assert_eq!(
        merged.find_command(&args(&["rust", "build", "debug"])).unwrap(),
        "cargo build"
    );
    assert_eq!(
        merged.find_command(&args(&["rust", "test", "unit"])).unwrap(),
        "cargo test"
    );
    assert_eq!(
        merged.find_command(&args(&["python", "run", "script"])).unwrap(),
        "python script.py"
    );
}

#[test]
fn test_find_command() {
    let config = tree_of(vec![
        entry("rust", "build", "debug", "cargo build"),
        entry("rust", "build", "release", "cargo build --release"),
        entry("python", "run", "script", "python script.py"),
    ]);
    assert_eq!(
        config.find_command(&args(&["rust", "build", "debug"])).unwrap(),
        "cargo build"
    );
    assert_eq!(
        config.find_command(&args(&["python", "run", "script"])).unwrap(),
        "python script.py"
    );
    assert!(config.find_command(&args(&["java", "compile"])).is_err());
}

#[test]
fn test_all_three_addressing_modes() {
    let config = tree_of(vec![entry("A", "B", "c", "X")]);
    assert_eq!(config.find_command(&args(&["A", "B", "c"])).unwrap(), "X");
    assert_eq!(config.find_command(&args(&["A", "c"])).unwrap(), "X");
    assert_eq!(config.find_command(&args(&["c"])).unwrap(), "X");
}

#[test]
fn test_merge_disjoint_trees() {
    let base = tree_of(vec![entry("A", "B", "debug", "cmd1")]);
    let other = tree_of(vec![
        entry("A", "test", "unit", "cmd2"),
        entry("python", "run", "script", "cmd3"),
    ]);
    let merged = Config::merge_configs(base, other).unwrap();
    assert_eq!(merged.find_command(&args(&["A", "B", "debug"])).unwrap(), "cmd1");
    assert_eq!(merged.find_command(&args(&["A", "test", "unit"])).unwrap(), "cmd2");
    assert_eq!(
        merged.find_command(&args(&["python", "run", "script"])).unwrap(),
        "cmd3"
    );
}

#[test]
fn test_merge_duplicate_same_category() {
    let base = tree_of(vec![entry("A", "B", "c", "X")]);
    let other = tree_of(vec![entry("A", "B", "c", "Y")]);
    let err = Config::merge_configs(base, other).unwrap_err();
    assert_eq!(
        err,
        HumorError::DuplicateCommand { domain: "A".to_string(), command: "c".to_string() }
    );
}

#[test]
fn test_merge_duplicate_across_categories() {
    let base = tree_of(vec![entry("A", "B", "c", "X")]);
    let other = tree_of(vec![entry("A", "other", "c", "Y")]);
    let err = Config::merge_configs(base, other).unwrap_err();
    assert_eq!(
        err,
        HumorError::DuplicateCommand { domain: "A".to_string(), command: "c".to_string() }
    );
}

#[test]
fn test_merge_no_rollback() {
    let mut config = tree_of(vec![entry("A", "B", "c", "X")]);
    let err = config
        .merge_entries(&vec![entry("d", "e", "f", "Y"), entry("A", "other", "c", "Z")])
        .unwrap_err();
    assert_eq!(
        err,
        HumorError::DuplicateCommand { domain: "A".to_string(), command: "c".to_string() }
    );
    // The entry merged before the duplicate was hit remains applied.
    assert_eq!(config.find_command(&args(&["d", "e", "f"])).unwrap(), "Y");
}

#[test]
fn test_ambiguous_bare_name() {
    // The same name under two domains of a single document raises no
    // merge-time duplicate, yet a bare lookup of it is ambiguous.
    let config = tree_of(vec![
        entry("A", "B", "deploy", "first"),
        entry("D", "E", "deploy", "second"),
    ]);
    let err = config.find_command(&args(&["deploy"])).unwrap_err();
    assert_eq!(err, HumorError::CommandNotFound("deploy".to_string()));
    // Each definition stays reachable by its longer addresses.
    assert_eq!(config.find_command(&args(&["A", "deploy"])).unwrap(), "first");
    assert_eq!(config.find_command(&args(&["D", "E", "deploy"])).unwrap(), "second");
}

#[test]
fn test_bare_name_not_found() {
    let config = tree_of(vec![entry("A", "B", "c", "X")]);
    let err = config.find_command(&args(&["missing"])).unwrap_err();
    assert_eq!(err, HumorError::CommandNotFound("missing".to_string()));
}

#[test]
fn test_invalid_arity() {
    let config = tree_of(vec![entry("A", "B", "c", "X")]);
    assert_eq!(
        config.find_command(&args(&[])).unwrap_err(),
        HumorError::InvalidCommandStructure
    );
    assert_eq!(
        config.find_command(&args(&["A", "B", "c", "extra"])).unwrap_err(),
        HumorError::InvalidCommandStructure
    );
}

#[test]
fn test_missing_domain_label() {
    let config = tree_of(vec![entry("rust", "build", "debug", "cargo build")]);
    let err = config.find_command(&args(&["java", "compile"])).unwrap_err();
    assert_eq!(err, HumorError::CommandNotFound("java.compile".to_string()));
}

#[test]
fn test_missing_triple_label() {
    let config = tree_of(vec![entry("rust", "build", "debug", "cargo build")]);
    let err = config
        .find_command(&args(&["rust", "deploy", "debug"]))
        .unwrap_err();
    assert_eq!(err, HumorError::CommandNotFound("rust.deploy.debug".to_string()));
}

#[test]
fn test_error_messages() {
    assert_eq!(
        HumorError::FileNotFound("a.yaml".to_string()).message(),
        "File not found: a.yaml"
    );
    assert_eq!(
        HumorError::DuplicateCommand { domain: "A".to_string(), command: "c".to_string() }
            .message(),
        "Duplicate command found: A.c"
    );
    assert_eq!(
        HumorError::CommandNotFound("java.compile".to_string()).message(),
        "Command not found: java.compile"
    );
    assert_eq!(
        HumorError::InvalidCommandStructure.message(),
        "Invalid command structure"
    );
    assert_eq!(
        HumorError::ParseError("bad document".to_string()).message(),
        "YAML parsing error: bad document"
    );
    assert_eq!(
        HumorError::CommandExecutionFailed.message(),
        "Command execution failed"
    );
}
