use cid::project::scan::{nested_configs, Scan};

fn scan(paths: &[&str]) -> Scan {
    let mut scan = Scan::new();
    for path in paths {
        scan.add_path(path.to_string());
    }
    scan
}

#[test]
fn only_nested_configs_are_looked_for_one_by_one() {
    assert_eq!(
        nested_configs(&["mise.toml", ".config/mise.toml", ".mise.toml", ".config/mise/config.toml"]),
        [".config/mise.toml", ".config/mise/config.toml"]
    );
}

#[test]
fn the_manifests_and_modules_that_are_there_are_read() {
    let scan = scan(&["versions.tf", "README.md", "Cargo.toml", "main.tf", ".config/mise.toml"]);
    assert_eq!(
        scan.to_read(&["package.json", ".config/mise.toml", "Cargo.toml"]),
        [".config/mise.toml", "Cargo.toml", "main.tf", "versions.tf"]
    );
    assert!(scan.has("README.md"));
    assert!(!scan.has("package.json"));
    assert!(!scan.has("main"));
}

#[test]
fn a_project_is_scanned_for_what_is_in_it() {
    let mut project = scan(&["Cargo.toml", "README.md", ".config", ".config/mise/config.toml"]);
    project.add_text("Cargo.toml".to_string(), "[package]".to_string());
    project.add_text(".config/mise/config.toml".to_string(), "[tools]".to_string());
    assert!(project.has("Cargo.toml"));
    assert!(project.has(".config/mise/config.toml"));
    assert_eq!(project.text("Cargo.toml"), Some("[package]"));
    assert_eq!(project.text("README.md"), None);

    let mut modules = scan(&["main.tf", "versions.tf"]);
    modules.add_text("main.tf".to_string(), "resource {}".to_string());
    modules.add_text("versions.tf".to_string(), "terraform {}".to_string());
    assert_eq!(modules.terraform(), "resource {}\nterraform {}");
}

#[test]
fn a_file_that_was_not_read_has_no_text() {
    let mut scan = scan(&["Cargo.toml", "README.md"]);
    scan.add_text("Cargo.toml".to_string(), "[package]".to_string());
    assert_eq!(scan.text("Cargo.toml"), Some("[package]"));
    assert_eq!(scan.text("README.md"), None);
    scan.add_text("Cargo.toml".to_string(), "[workspace]".to_string());
    assert_eq!(scan.text("Cargo.toml"), Some("[workspace]"));
}

#[test]
fn modules_are_put_together_in_the_order_of_their_names() {
    let mut scan = scan(&["versions.tf", "main.tf", "Cargo.toml", "ærlig.tf"]);
    scan.add_text("ærlig.tf".to_string(), "locals {}".to_string());
    scan.add_text("versions.tf".to_string(), "terraform {}".to_string());
    scan.add_text("Cargo.toml".to_string(), "[package]".to_string());
    scan.add_text("main.tf".to_string(), "resource {}".to_string());
    assert_eq!(scan.terraform(), "resource {}\nterraform {}\nlocals {}");
    assert_eq!(Scan::new().terraform(), "");
}

#[test]
fn what_is_found_twice_is_there_once() {
    let scan = scan(&["b.tf", "a.tf", "b.tf", "a.tf", "a"]);
    assert_eq!(scan.to_read(&[]), ["a.tf", "b.tf"]);
    assert_eq!(scan.to_read(&["a", "b.tf"]), ["a", "b.tf", "a.tf", "b.tf"]);
}
