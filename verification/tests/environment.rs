use mysql_env::env::{
    bin_dir_for, install, lib_dir_for, rewrite_path_install, rewrite_path_remove, uninstall,
    EnvState,
};

fn clean_state(path: &str) -> EnvState {
    EnvState { lib_dir: None, version: None, path: path.to_string() }
}

#[test]
fn derived_directories() {
    assert_eq!(lib_dir_for("8.0.37"), r"C:\mysql-8.0.37-winx64\lib");
    assert_eq!(bin_dir_for("8.0.37"), r"C:\mysql-8.0.37-winx64\bin");
}

#[test]
fn install_sets_version_and_lib_dir() {
    let state = clean_state(r"C:\Windows;C:\Tools");
    let after = install(&state, "8.0.37");
    assert_eq!(after.version, Some("8.0.37".to_string()));
    assert_eq!(after.lib_dir, Some(r"C:\mysql-8.0.37-winx64\lib".to_string()));
}

#[test]
fn install_appends_bin_dir_as_last_segment() {
    let state = clean_state(r"C:\Windows;C:\Tools");
    let after = install(&state, "8.0.37");
    assert_eq!(after.path, r"C:\Windows;C:\Tools;C:\mysql-8.0.37-winx64\bin");
    let marked: Vec<&str> = after.path.split(';').filter(|s| s.contains("mysql-")).collect();
    assert_eq!(marked, vec![r"C:\mysql-8.0.37-winx64\bin"]);
}

#[test]
fn install_twice_same_version_is_idempotent() {
    let state = clean_state(r"C:\Windows;C:\Tools");
    let once = install(&state, "8.0.37");
    let twice = install(&once, "8.0.37");
    assert_eq!(twice.path, once.path);
    assert_eq!(twice.version, once.version);
    assert_eq!(twice.lib_dir, once.lib_dir);
}

#[test]
fn install_overwrites_previous_version() {
    let state = clean_state(r"C:\Windows;C:\Tools");
    let first = install(&state, "8.0.36");
    let second = install(&first, "8.1.0");
    assert_eq!(second.version, Some("8.1.0".to_string()));
    assert_eq!(second.lib_dir, Some(r"C:\mysql-8.1.0-winx64\lib".to_string()));
    assert_eq!(second.path, r"C:\Windows;C:\Tools;C:\mysql-8.1.0-winx64\bin");
    assert!(!second.path.contains("8.0.36"));
}

#[test]
fn install_on_empty_path() {
    let state = clean_state("");
    let after = install(&state, "8.0.37");
    assert_eq!(after.path, r";C:\mysql-8.0.37-winx64\bin");
}

#[test]
fn install_replaces_stale_segments_anywhere() {
    let state = clean_state(r"C:\mysql-5.7.0-winx64\bin;C:\Windows;C:\mysql-8.0.0-winx64\bin");
    let after = install(&state, "8.0.37");
    assert_eq!(after.path, r"C:\Windows;C:\mysql-8.0.37-winx64\bin");
}

#[test]
fn uninstall_clears_variables_and_markers() {
    let state = clean_state(r"C:\Windows;C:\Tools");
    let installed = install(&install(&state, "8.0.36"), "8.1.0");
    let removed = uninstall(&installed);
    assert_eq!(removed.lib_dir, None);
    assert_eq!(removed.version, None);
    assert_eq!(removed.path, r"C:\Windows;C:\Tools");
    assert!(!removed.path.contains("mysql-"));
}

#[test]
fn uninstall_on_clean_state_keeps_path() {
    let state = clean_state(r"C:\Windows;C:\Tools;");
    let removed = uninstall(&state);
    assert_eq!(removed.path, r"C:\Windows;C:\Tools;");
    assert_eq!(removed.lib_dir, None);
    assert_eq!(removed.version, None);
}

#[test]
fn uninstall_keeps_unrelated_segments_in_order() {
    let state = clean_state(r"a;C:\mysql-8.0.0-winx64\bin;b;C:\mysql-8.1.0-winx64\bin;c");
    let removed = uninstall(&state);
    assert_eq!(removed.path, "a;b;c");
}

#[test]
fn rewrite_path_install_rewrites_string() {
    let out = rewrite_path_install(r"x;C:\mysql-8.0.1-winx64\bin", "9.0.1");
    assert_eq!(out, r"x;C:\mysql-9.0.1-winx64\bin");
}

#[test]
fn rewrite_path_remove_only_marked() {
    let out = rewrite_path_remove(r"C:\mysql-8.0.1-winx64\bin");
    assert_eq!(out, "");
    let kept = rewrite_path_remove(r"x;y");
    assert_eq!(kept, "x;y");
}
