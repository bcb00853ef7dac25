use agent_rules::pathresolve::{env_table, expand_env_vars, home_dir, resolve_target};
use agent_rules::table::StringMap;

fn env(pairs: &[(&str, &str)]) -> StringMap {
    let mut m = StringMap::new();
    for (k, v) in pairs {
        m.insert(k.to_string(), v.to_string());
    }
    m
}

#[test]
fn variable_forms_expand() {
    let e = env(&[("HOME", "/home/u"), ("X_1", "v")]);
    assert_eq!(expand_env_vars("$HOME/a", &e, false), "/home/u/a");
    assert_eq!(expand_env_vars("${HOME}b", &e, false), "/home/ub");
    assert_eq!(expand_env_vars("%X_1%-%HOME%", &e, false), "v-/home/u");
    assert_eq!(expand_env_vars("$X_1.x", &e, false), "v.x");
}

#[test]
fn unset_variables_expand_to_nothing() {
    let e = env(&[]);
    assert_eq!(expand_env_vars("a$NOPE/b", &e, false), "a/b");
    assert_eq!(expand_env_vars("${NOPE}", &e, false), "");
    assert_eq!(expand_env_vars("%NOPE%", &e, false), "");
}

#[test]
fn non_references_are_kept() {
    let e = env(&[("A", "1")]);
    assert_eq!(expand_env_vars("$", &e, false), "$");
    assert_eq!(expand_env_vars("${A", &e, false), "${A");
    assert_eq!(expand_env_vars("$1", &e, false), "$1");
    assert_eq!(expand_env_vars("%%", &e, false), "%%");
    assert_eq!(expand_env_vars("%A B%", &e, false), "%A B%");
    assert_eq!(expand_env_vars("100%", &e, false), "100%");
    assert_eq!(expand_env_vars("plain/path", &e, false), "plain/path");
}

#[test]
fn tilde_expands_to_home() {
    let e = env(&[("HOME", "/home/u/")]);
    assert_eq!(resolve_target("~", &e, false), Ok("/home/u/".to_string()));
    assert_eq!(resolve_target("~/.agent/x", &e, false), Ok("/home/u/.agent/x".to_string()));
    assert_eq!(resolve_target("/etc/~x", &e, false), Ok("/etc/~x".to_string()));
}

#[test]
fn windows_home_and_separators() {
    let e = env(&[("USERPROFILE", "C:\\Users\\u")]);
    assert_eq!(resolve_target("~/a/b", &e, true), Ok("C:\\Users\\u\\a\\b".to_string()));
    let e = env(&[("HOMEDRIVE", "D:"), ("HOMEPATH", "\\me")]);
    assert_eq!(home_dir(&e, true), Some("D:\\me".to_string()));
    assert_eq!(resolve_target("~\\x", &e, true), Ok("D:\\me\\x".to_string()));
}

#[test]
fn no_home_is_an_error() {
    let e = env(&[("HOME", "")]);
    assert_eq!(home_dir(&e, false), None);
    assert_eq!(
        resolve_target("~/x", &e, false),
        Err("cannot resolve home directory (HOME/USERPROFILE not set)".to_string())
    );
    assert_eq!(resolve_target("rel/x", &e, false), Ok("rel/x".to_string()));
}

fn vars(pairs: &[(&str, &str)]) -> Vec<(String, String)> {
    pairs.iter().map(|(k, v)| (k.to_string(), v.to_string())).collect()
}

#[test]
fn windows_names_match_without_regard_to_case() {
    let e = env_table(&vars(&[("UserProfile", "C:\\Users\\u"), ("Path", "p")]), true);
    assert_eq!(expand_env_vars("%userprofile%\\x", &e, true), "C:\\Users\\u\\x");
    assert_eq!(expand_env_vars("$PATH;${path}", &e, true), "p;p");
    assert_eq!(home_dir(&e, true).as_deref(), Some("C:\\Users\\u"));
}

#[test]
fn other_systems_match_names_exactly() {
    let e = env_table(&vars(&[("Path", "p")]), false);
    assert_eq!(expand_env_vars("$PATH|$Path", &e, false), "|p");
}
