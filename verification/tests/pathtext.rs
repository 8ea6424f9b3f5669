use mysql_env::pathlist::contains_marker;
use mysql_env::text::{join_str, split_str, starts_with_prefix, str_lt};

fn strings(items: &[&str]) -> Vec<String> {
    items.iter().map(|s| s.to_string()).collect()
}

#[test]
fn split_keeps_empty_segments() {
    assert_eq!(split_str("a;;b", ';'), strings(&["a", "", "b"]));
    assert_eq!(split_str("", ';'), strings(&[""]));
    assert_eq!(split_str(";", ';'), strings(&["", ""]));
    assert_eq!(split_str("abc", ';'), strings(&["abc"]));
}

#[test]
fn join_restores_split() {
    for path in ["a;;b", "", ";", "x;y;z", "trailing;"] {
        let parts = split_str(path, ';');
        assert_eq!(join_str(&parts, ';', ";"), path);
    }
}

#[test]
fn join_of_segments() {
    assert_eq!(join_str(&strings(&["a", "b"]), ';', ";"), "a;b");
    assert_eq!(join_str(&strings(&[""]), ';', ";"), "");
    assert_eq!(join_str(&strings(&[]), ';', ";"), "");
}

#[test]
fn marker_detection() {
    assert!(contains_marker(r"C:\mysql-8.0.0-winx64\bin"));
    assert!(contains_marker("xmysql-"));
    assert!(!contains_marker("mysql"));
    assert!(!contains_marker(""));
    assert!(!contains_marker(r"C:\Windows"));
}

#[test]
fn lexicographic_order() {
    assert!(str_lt("8.0", "8.1"));
    assert!(!str_lt("8.1", "8.0"));
    assert!(!str_lt("8.0", "8.0"));
    assert!(str_lt("8.0", "8.0.1"));
    // Lexicographic, not numeric: "10.0" sorts before "9.0".
    assert!(str_lt("10.0", "9.0"));
}

#[test]
fn prefix_tests() {
    assert!(starts_with_prefix("8.0.37", "8.0"));
    assert!(starts_with_prefix("8.0", "8.0"));
    assert!(!starts_with_prefix("8.0", "8.0.37"));
    assert!(starts_with_prefix("8.04", "8.0"));
    assert!(!starts_with_prefix("9.0.1", "8.0"));
}
