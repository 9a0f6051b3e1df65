use buk::config::{resolve_root, resolve_template, DEFAULT_TEMPLATE, ENV_DEST, ENV_TEMPLATE};

#[test]
fn template_arg_wins() {
    assert_eq!(resolve_template(Some("%Y"), None), "%Y");
}

#[test]
fn backup_root_defaults_to_home_dot_buk() {
    let home = Some("/home/u".to_string());
    assert_eq!(
        resolve_root(Some("/custom".to_string()), home.clone()).unwrap(),
        "/custom"
    );
    let expected = "/home/u/.buk".to_string();
    assert_eq!(resolve_root(Some(String::new()), home.clone()).unwrap(), expected);
    assert_eq!(resolve_root(None, home).unwrap(), expected);
    assert!(resolve_root(None, Some(String::new())).is_err());
    assert!(resolve_root(None, None).is_err());
}

#[test]
fn template_precedence() {
    assert_eq!(resolve_template(Some("%Y"), Some("%m".to_string())), "%Y");
    assert_eq!(resolve_template(None, Some("%m".to_string())), "%m");
    assert_eq!(resolve_template(None, Some(String::new())), DEFAULT_TEMPLATE);
    assert_eq!(resolve_template(None, None), "%Y%m%d_%H%M%S");
}

#[test]
fn root_error_and_names() {
    assert_eq!(
        resolve_root(None, None).unwrap_err(),
        "cannot determine backup root: BUK_PATH is not set and the home directory is unknown"
    );
    assert_eq!(resolve_root(None, Some("/home/u/".to_string())).unwrap(), "/home/u/.buk");
    assert_eq!(ENV_DEST, "BUK_PATH");
    assert_eq!(ENV_TEMPLATE, "BUK_SUFFIX_TEMPLATE");
}
