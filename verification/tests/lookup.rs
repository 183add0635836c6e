use cfg_loader::{get_variable_map, VariableMap};

fn sample() -> VariableMap {
    get_variable_map("Name = Ada\nport=8080\n path = /tmp/x y ".to_string())
}

#[test]
fn lookup_finds_each_key() {
    let varmap = sample();

    assert_eq!(varmap.get_val("Name"), Some("Ada"));
    assert_eq!(varmap.get_val("port"), Some("8080"));
    assert_eq!(varmap.get_val("path"), Some("/tmp/x y"));
}

#[test]
fn lookup_of_missing_key_is_none() {
    let varmap = sample();

    assert_eq!(varmap.get_val("host"), None);
    assert!(varmap.get_val("").is_none());
}

#[test]
fn lookup_is_case_sensitive() {
    let varmap = sample();

    assert_eq!(varmap.get_val("name"), None);
    assert_eq!(varmap.get_val("NAME"), None);
    assert_eq!(varmap.get_val("PORT"), None);
}

#[test]
fn lookup_does_not_trim_the_name() {
    let varmap = sample();

    assert_eq!(varmap.get_val(" port"), None);
    assert_eq!(varmap.get_val("port "), None);
    assert_eq!(varmap.get_val(" path "), None);
}

#[test]
fn lookup_can_be_repeated() {
    let varmap = sample();

    for _ in 0..3 {
        assert_eq!(varmap.get_val("port"), Some("8080"));
        assert_eq!(varmap.get_val("nothing"), None);
    }
    assert_eq!(varmap.len(), 3);
}

#[test]
fn len_counts_keys_not_lines() {
    assert_eq!(get_variable_map("a=1\na=2\na=3".to_string()).len(), 1);
    assert_eq!(get_variable_map("a=1\nb=2\nc=3".to_string()).len(), 3);
    assert_eq!(get_variable_map("a\nb\nc".to_string()).len(), 0);
}
