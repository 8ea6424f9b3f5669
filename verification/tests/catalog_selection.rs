use mysql_env::catalog::{
    full_versions_for, major_minor_groups, major_minor_of, mysql_versions, parse_index,
    select_index,
};

fn strings(items: &[&str]) -> Vec<String> {
    items.iter().map(|s| s.to_string()).collect()
}

#[test]
fn catalog_contents() {
    let versions = mysql_versions();
    assert_eq!(versions.len(), 36);
    assert_eq!(versions[0], "8.0.0");
    assert_eq!(versions[35], "9.0.1");
    assert!(versions.iter().any(|v| v == "8.0.37"));
}

#[test]
fn example_scenario_groups_and_versions() {
    let versions = strings(&["8.0.36", "8.0.37", "8.1.0"]);
    let groups = major_minor_groups(&versions);
    assert_eq!(groups, strings(&["8.0", "8.1"]));
    let offered = full_versions_for(&versions, "8.0");
    assert_eq!(offered, strings(&["8.0.36", "8.0.37"]));
}

#[test]
fn groups_of_full_catalog() {
    let groups = major_minor_groups(&mysql_versions());
    assert_eq!(groups, strings(&["8.0", "8.1", "8.2", "8.4", "9.0"]));
}

#[test]
fn full_versions_preserve_catalog_order() {
    let versions = mysql_versions();
    let eights = full_versions_for(&versions, "8.1");
    assert_eq!(eights, strings(&["8.1.0", "8.1.1"]));
}

#[test]
fn full_versions_for_unknown_prefix_is_empty() {
    let versions = mysql_versions();
    let none = full_versions_for(&versions, "7.5");
    assert!(none.is_empty());
}

#[test]
fn major_minor_of_versions() {
    assert_eq!(major_minor_of("8.0.37"), Some("8.0".to_string()));
    assert_eq!(major_minor_of("8.0"), Some("8.0".to_string()));
    assert_eq!(major_minor_of("8"), None);
    assert_eq!(major_minor_of(""), None);
}

#[test]
fn selection_accepts_in_range_numbers() {
    assert_eq!(select_index(5, "1"), Some(0));
    assert_eq!(select_index(5, "3"), Some(2));
    assert_eq!(select_index(5, "5"), Some(4));
}

#[test]
fn selection_rejects_out_of_range_numbers() {
    assert_eq!(select_index(5, "0"), None);
    assert_eq!(select_index(5, "6"), None);
    assert_eq!(select_index(0, "1"), None);
}

#[test]
fn selection_rejects_non_numeric_input() {
    assert_eq!(select_index(5, "abc"), None);
    assert_eq!(select_index(5, ""), None);
    assert_eq!(select_index(5, "2x"), None);
    assert_eq!(select_index(5, "-1"), None);
}

#[test]
fn selection_rejects_huge_numbers() {
    assert_eq!(select_index(5, "99999999999999999999999999999"), None);
}

#[test]
fn parse_index_values() {
    assert_eq!(parse_index("42"), Some(42));
    assert_eq!(parse_index("007"), Some(7));
    assert_eq!(parse_index("0"), Some(0));
    assert_eq!(parse_index("1 "), None);
}
