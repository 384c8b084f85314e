//! Tests of import resolution: request order, path resolution, merge
//! order across imports and inline entries, and the executor facade.

use humor::command::CommandExecutor;
use humor::config::{CommandEntry, Config};
use humor::error::HumorError;
use humor::loader::{default_config_path, ConfigDocument, LoadStep, Loader};

fn entry(domain: &str, category: &str, name: &str, command: &str) -> CommandEntry {
    CommandEntry {
        domain: domain.to_string(),
        category: category.to_string(),
        name: name.to_string(),
        command: command.to_string(),
    }
}

fn doc(imports: &[&str], entries: Vec<CommandEntry>) -> ConfigDocument {
    ConfigDocument { imports: imports.iter().map(|i| i.to_string()).collect(), entries }
}

fn args(tokens: &[&str]) -> Vec<String> {
    tokens.iter().map(|t| t.to_string()).collect()
}

fn finish(loader: Loader, step: LoadStep) -> Config {
    assert_eq!(step, LoadStep::Done);
    loader.finish()
}

#[test]
fn test_load_without_imports() {
    let mut loader = Loader::start("humor.yaml".to_string());
    let step = loader
        .provide(doc(&[], vec![entry("rust", "build", "debug", "cargo build")]))
        .unwrap();
    let config = finish(loader, step);
    assert_eq!(
        config.find_command(&args(&["rust", "build", "debug"])).unwrap(),
        "cargo build"
    );
}

#[test]
fn test_import_path_resolved_against_document_directory() {
    let mut loader = Loader::start("conf/root.yaml".to_string());
    let step = loader.provide(doc(&["sub.yaml"], vec![])).unwrap();
    assert_eq!(step, LoadStep::NeedFile("conf/sub.yaml".to_string()));
}

#[test]
fn test_import_path_with_no_directory() {
    let mut loader = Loader::start("root.yaml".to_string());
    let step = loader.provide(doc(&["sub.yaml"], vec![])).unwrap();
    assert_eq!(step, LoadStep::NeedFile("sub.yaml".to_string()));
}

#[test]
fn test_missing_import_is_file_not_found_with_resolved_path() {
    let mut loader = Loader::start("conf/root.yaml".to_string());
    let step = loader.provide(doc(&["absent.yaml"], vec![])).unwrap();
    assert_eq!(step, LoadStep::NeedFile("conf/absent.yaml".to_string()));
    // The document at that path turns out not to exist.
    assert_eq!(
        loader.missing_file(),
        HumorError::FileNotFound("conf/absent.yaml".to_string())
    );
}

#[test]
fn test_missing_root_is_file_not_found() {
    let loader = Loader::start("nowhere.yaml".to_string());
    assert_eq!(
        loader.missing_file(),
        HumorError::FileNotFound("nowhere.yaml".to_string())
    );
}

#[test]
fn test_nested_imports_depth_first() {
    let mut loader = Loader::start("root.yaml".to_string());
    let step = loader
        .provide(doc(&["mid.yaml"], vec![entry("root", "own", "r", "root-cmd")]))
        .unwrap();
    assert_eq!(step, LoadStep::NeedFile("mid.yaml".to_string()));
    let step = loader
        .provide(doc(&["deep/leaf.yaml"], vec![entry("mid", "own", "m", "mid-cmd")]))
        .unwrap();
    assert_eq!(step, LoadStep::NeedFile("deep/leaf.yaml".to_string()));
    let step = loader
        .provide(doc(&[], vec![entry("leaf", "own", "l", "leaf-cmd")]))
        .unwrap();
    let config = finish(loader, step);
    assert_eq!(config.find_command(&args(&["r"])).unwrap(), "root-cmd");
    assert_eq!(config.find_command(&args(&["m"])).unwrap(), "mid-cmd");
    assert_eq!(config.find_command(&args(&["l"])).unwrap(), "leaf-cmd");
}

#[test]
fn test_sibling_imports_collide_in_list_order() {
    // The base document imports two siblings that define the same
    // (domain, name); the duplicate is raised while merging the second
    // import, before the document's own entry is ever considered.
    let mut loader = Loader::start("root.yaml".to_string());
    let step = loader
        .provide(doc(&["x.yaml", "y.yaml"], vec![entry("inline", "own", "z", "late")]))
        .unwrap();
    assert_eq!(step, LoadStep::NeedFile("x.yaml".to_string()));
    let step = loader
        .provide(doc(&[], vec![entry("shared", "from-x", "dup", "x-cmd")]))
        .unwrap();
    assert_eq!(step, LoadStep::NeedFile("y.yaml".to_string()));
    let err = loader
        .provide(doc(&[], vec![entry("shared", "from-y", "dup", "y-cmd")]))
        .unwrap_err();
    assert_eq!(
        err,
        HumorError::DuplicateCommand {
            domain: "shared".to_string(),
            command: "dup".to_string(),
        }
    );
}

#[test]
fn test_inline_entries_rejected_against_imports() {
    // A document's own entries are merged after its imports, so they
    // collide with what an import already defined.
    let mut loader = Loader::start("root.yaml".to_string());
    let step = loader
        .provide(doc(&["x.yaml"], vec![entry("shared", "inline", "dup", "late")]))
        .unwrap();
    assert_eq!(step, LoadStep::NeedFile("x.yaml".to_string()));
    let err = loader
        .provide(doc(&[], vec![entry("shared", "imported", "dup", "early")]))
        .unwrap_err();
    assert_eq!(
        err,
        HumorError::DuplicateCommand {
            domain: "shared".to_string(),
            command: "dup".to_string(),
        }
    );
}

#[test]
fn test_imports_merge_before_inline_entries() {
    let mut loader = Loader::start("root.yaml".to_string());
    let step = loader
        .provide(doc(&["x.yaml"], vec![entry("inline", "own", "z", "inline-cmd")]))
        .unwrap();
    assert_eq!(step, LoadStep::NeedFile("x.yaml".to_string()));
    let step = loader
        .provide(doc(&[], vec![entry("imported", "own", "x", "import-cmd")]))
        .unwrap();
    let config = finish(loader, step);
    assert_eq!(config.find_command(&args(&["x"])).unwrap(), "import-cmd");
    assert_eq!(config.find_command(&args(&["z"])).unwrap(), "inline-cmd");
}

#[test]
fn test_default_config_path() {
    assert_eq!(
        default_config_path("/home/someone"),
        "/home/someone/.humors/humor-base.yaml"
    );
}

#[test]
fn test_executor_resolves_through_config() {
    let mut loader = Loader::start("humor.yaml".to_string());
    let step = loader
        .provide(doc(&[], vec![entry("rust", "build", "debug", "cargo build")]))
        .unwrap();
    let config = finish(loader, step);
    let executor = CommandExecutor::new(&config);
    assert_eq!(
        executor.find_command(&args(&["rust", "build", "debug"])).unwrap(),
        "cargo build"
    );
    assert!(executor.find_command(&args(&["java", "compile"])).is_err());
}
