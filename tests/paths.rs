use sqf_analyzer_server::literal::is_number_literal;
use sqf_analyzer_server::names::eq_ignore_case;
use sqf_analyzer_server::paths::{join_path, parent_of, resolve, Alias, Locator};

#[test]
fn numbers_are_recognized() {
    for t in ["1", "1.5", "-2", "+3.", ".5", "1e3", "1.5E-3", "inf", "-Infinity", "NaN"] {
        assert!(is_number_literal(t), "{}", t);
    }
    for t in ["", ".", "e3", "1e", "1.2.3", "abc", "--1", "1e+", "x1"] {
        assert!(!is_number_literal(t), "{}", t);
    }
}

#[test]
fn names_compare_without_case() {
    assert!(eq_ignore_case("doThing", "DOTHING"));
    assert!(!eq_ignore_case("doThing", "doThings"));
    assert!(!eq_ignore_case("a", "b"));
}

#[test]
fn parent_and_join() {
    assert_eq!(parent_of(&"/a/b/c.sqf".to_string()), Some("/a/b".to_string()));
    assert_eq!(parent_of(&"/a".to_string()), Some("/".to_string()));
    assert_eq!(parent_of(&"/".to_string()), None);
    assert_eq!(parent_of(&"c.sqf".to_string()), None);
    assert_eq!(join_path(&"/a".to_string(), "config.cpp"), "/a/config.cpp");
    assert_eq!(join_path(&"/".to_string(), "config.cpp"), "/config.cpp");
}

#[test]
fn relative_paths_resolve_against_the_base() {
    let r = resolve(&"scripts\\init.sqf".to_string(), &"/m".to_string(), &vec![]);
    assert_eq!(r, Some("/m/scripts/init.sqf".to_string()));
    assert_eq!(resolve(&"".to_string(), &"/m".to_string(), &vec![]), None);
}

#[test]
fn aliased_paths_resolve_through_the_alias_table() {
    let aliases = vec![Alias { name: "CBA".to_string(), path: "/mods/cba".to_string() }];
    let r = resolve(&"\\cba\\fnc\\a.sqf".to_string(), &"/m".to_string(), &aliases);
    assert_eq!(r, Some("/mods/cba/fnc/a.sqf".to_string()));
    let r = resolve(&"\\ace\\a.sqf".to_string(), &"/m".to_string(), &aliases);
    assert_eq!(r, None);
}

#[test]
fn locator_walks_up_trying_both_markers() {
    let mut l = Locator::new(&"/a/b/c.sqf".to_string());
    let mut seen = vec![];
    while let Some(c) = l.candidate() {
        seen.push(c);
        l.advance();
    }
    assert_eq!(
        seen,
        vec![
            "/a/b/config.cpp",
            "/a/b/description.ext",
            "/a/config.cpp",
            "/a/description.ext",
            "/config.cpp",
            "/description.ext",
        ]
    );
}
