use driver_dispatch::deps::{record_dependencies, track_files, track_tool_args, DependencySet};

#[test]
fn records_tool_args_variable_with_value() {
    let deps = record_dependencies(
        "DRIVER_ARGS".to_string(),
        Some("-W extra".to_string()),
        false,
        false,
        None,
    );
    assert_eq!(
        deps.env_entries(),
        &vec![("DRIVER_ARGS".to_string(), Some("-W extra".to_string()))]
    );
    assert!(deps.file_paths().is_empty());
}

#[test]
fn records_tool_args_variable_as_unset() {
    let deps = record_dependencies("DRIVER_ARGS".to_string(), None, false, false, None);
    assert_eq!(deps.env_entries(), &vec![("DRIVER_ARGS".to_string(), None)]);
}

#[test]
fn records_manifest_when_it_exists() {
    let deps = record_dependencies("DRIVER_ARGS".to_string(), None, true, false, None);
    assert_eq!(deps.file_paths(), &vec!["Cargo.toml".to_string()]);
}

#[test]
fn records_executable_only_in_debug_builds() {
    let exe = Some("/usr/local/bin/driver".to_string());
    let deps = record_dependencies("DRIVER_ARGS".to_string(), None, true, true, exe.clone());
    assert_eq!(
        deps.file_paths(),
        &vec!["Cargo.toml".to_string(), "/usr/local/bin/driver".to_string()]
    );

    let deps = record_dependencies("DRIVER_ARGS".to_string(), None, true, false, exe);
    assert_eq!(deps.file_paths(), &vec!["Cargo.toml".to_string()]);
}

#[test]
fn unresolved_executable_is_silently_untracked() {
    let deps = record_dependencies("DRIVER_ARGS".to_string(), None, false, true, None);
    assert!(deps.file_paths().is_empty());
}

#[test]
fn duplicate_paths_are_tracked_once() {
    let mut deps = DependencySet::new();
    track_files(&mut deps, true, false, None);
    track_files(&mut deps, true, true, Some("/bin/driver".to_string()));
    assert_eq!(
        deps.file_paths(),
        &vec!["Cargo.toml".to_string(), "/bin/driver".to_string()]
    );
}

#[test]
fn first_record_of_a_variable_wins() {
    let mut deps = DependencySet::new();
    track_tool_args(&mut deps, "DRIVER_ARGS".to_string(), &Some("first".to_string()));
    track_tool_args(&mut deps, "DRIVER_ARGS".to_string(), &Some("second".to_string()));
    assert_eq!(
        deps.env_entries(),
        &vec![("DRIVER_ARGS".to_string(), Some("first".to_string()))]
    );
}
