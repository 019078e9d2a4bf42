//! Goal flattening (closure, deduplication, cycle detection) and variable
//! substitution in path text.

use dotlinks::goals::{Goal, GoalError, GoalMap};
use dotlinks::link::{SourceFile, VariablePath, Link};
use dotlinks::util::{parse_vars, ParsingVarError, VarMap};

fn varmap(pairs: &[(&str, &str)]) -> VarMap {
    let mut m = VarMap::new();
    for (k, v) in pairs {
        m.insert_fresh(k.to_string(), v.to_string());
    }
    m
}

fn named_link(name: &str) -> Link {
    Link::new(
        name.to_string(),
        VariablePath::new(format!("/home/me/.{}", name)),
        SourceFile::SourceWithNoSystem(format!("files/{}", name)),
    )
}

fn goal(links: &[&str], requires: &[&str]) -> Goal {
    Goal {
        enabled: true,
        links: links.iter().map(|s| s.to_string()).collect(),
        required_goals: if requires.is_empty() {
            None
        } else {
            Some(requires.iter().map(|s| s.to_string()).collect())
        },
    }
}

fn goalmap(pairs: Vec<(&str, Goal)>) -> GoalMap {
    let mut m = GoalMap::new();
    for (k, v) in pairs {
        m.insert_fresh(k.to_string(), v);
    }
    m
}

#[test]
fn no_vars() {
    let input_text = "Hi well";
    let env = varmap(&[]);
    assert_eq!(
        input_text.to_string(),
        parse_vars(true, None, &env, input_text).unwrap()
    );
}

#[test]
fn simple_input() {
    let env = varmap(&[("PWD", "/home/me/proj"), ("USER", "me")]);
    let input_text = "$PWD/very cool${USER}";
    let expected_text = format!("{}/very cool{}", "/home/me/proj", "me");
    assert_eq!(expected_text, parse_vars(true, None, &env, input_text).unwrap());
}

#[test]
fn undefined_variable_fails_with_its_name() {
    let env = varmap(&[]);
    match parse_vars(true, None, &env, "x/$UNDEFINED_XYZ/y") {
        Err(ParsingVarError::NotFound(name)) => assert_eq!(name, "UNDEFINED_XYZ"),
        other => panic!("expected the missing name, got {:?}", other),
    }
}

#[test]
fn supplied_map_wins_over_environment() {
    let env = varmap(&[("HOME", "/wrong")]);
    let extra = varmap(&[("HOME", "/right")]);
    assert_eq!(
        parse_vars(true, Some(&extra), &env, "$HOME/x").unwrap(),
        "/right/x"
    );
    // without the environment enabled, only the supplied map counts
    match parse_vars(false, None, &env, "$HOME/x") {
        Err(ParsingVarError::NotFound(name)) => assert_eq!(name, "HOME"),
        other => panic!("expected the missing name, got {:?}", other),
    }
}

#[test]
fn lone_dollar_and_empty_braces_stay_untouched() {
    let env = varmap(&[("a", "V")]);
    assert_eq!(parse_vars(true, None, &env, "100$ well").unwrap(), "100$ well");
    assert_eq!(parse_vars(true, None, &env, "x${}y").unwrap(), "x${}y");
    assert_eq!(parse_vars(true, None, &env, "x${a-b}y").unwrap(), "x${a-b}y");
    assert_eq!(parse_vars(true, None, &env, "${a}$a").unwrap(), "VV");
}

#[test]
fn variable_path_realises_through_the_tables() {
    let env = varmap(&[("HOME", "/home/me")]);
    let p = VariablePath::new("$HOME/.bashrc".to_string());
    assert_eq!(p.to_path_buf(None, &env).unwrap(), "/home/me/.bashrc");
}

#[test]
fn goal_flattens_its_own_and_required_links() {
    let links = vec![named_link("vimrc"), named_link("bashrc"), named_link("gitconfig")];
    let goals = goalmap(vec![
        ("shell", goal(&["bashrc"], &[])),
        ("editor", goal(&["vimrc"], &["shell"])),
    ]);
    let flattened = goal(&["gitconfig"], &["editor"]).to_links(&links, &goals).unwrap();
    let names: Vec<&str> = flattened.iter().map(|l| l.name.as_str()).collect();
    assert_eq!(names, vec!["gitconfig", "vimrc", "bashrc"]);
}

#[test]
fn goal_closure_deduplicates_names() {
    let links = vec![named_link("bashrc"), named_link("vimrc")];
    let goals = goalmap(vec![
        ("a", goal(&["bashrc"], &[])),
        ("b", goal(&["bashrc", "vimrc"], &["a"])),
    ]);
    let flattened = goal(&["bashrc"], &["b"]).to_links(&links, &goals).unwrap();
    let names: Vec<&str> = flattened.iter().map(|l| l.name.as_str()).collect();
    assert_eq!(names, vec!["bashrc", "vimrc"]);
}

#[test]
fn goal_closure_is_idempotent() {
    let links = vec![named_link("bashrc"), named_link("vimrc")];
    let goals = goalmap(vec![("a", goal(&["vimrc"], &[]))]);
    let g = goal(&["bashrc"], &["a"]);
    let once: Vec<String> = g
        .to_links(&links, &goals)
        .unwrap()
        .iter()
        .map(|l| l.name.clone())
        .collect();
    let twice: Vec<String> = g
        .to_links(&links, &goals)
        .unwrap()
        .iter()
        .map(|l| l.name.clone())
        .collect();
    assert_eq!(once, twice);
}

#[test]
fn cyclic_goals_fail_closure() {
    let links = vec![named_link("bashrc")];
    let goals = goalmap(vec![
        ("a", goal(&["bashrc"], &["b"])),
        ("b", goal(&[], &["a"])),
    ]);
    match goal(&[], &["a"]).to_links(&links, &goals) {
        Err(GoalError::CyclicGoal(name)) => assert!(name == "a" || name == "b"),
        other => panic!("expected the cyclic-goal error, got {:?}", other),
    }
}

#[test]
fn self_requiring_goal_fails_closure() {
    let links = vec![named_link("bashrc")];
    let goals = goalmap(vec![("a", goal(&["bashrc"], &["a"]))]);
    match goals.get(&"a".to_string()).unwrap().to_links(&links, &goals) {
        Err(GoalError::CyclicGoal(name)) => assert_eq!(name, "a"),
        other => panic!("expected the cyclic-goal error, got {:?}", other),
    }
}

#[test]
fn missing_required_goal_is_named() {
    let links = vec![named_link("bashrc")];
    let goals = goalmap(vec![]);
    match goal(&["bashrc"], &["ghost"]).to_links(&links, &goals) {
        Err(GoalError::GoalNotFound(name)) => assert_eq!(name, "ghost"),
        other => panic!("expected the goal-not-found error, got {:?}", other),
    }
}

#[test]
fn missing_link_name_is_named() {
    let links = vec![named_link("bashrc")];
    let goals = goalmap(vec![]);
    match goal(&["bashrc", "ghost"], &[]).to_links(&links, &goals) {
        Err(GoalError::LinkNotFound(name)) => assert_eq!(name, "ghost"),
        other => panic!("expected the link-not-found error, got {:?}", other),
    }
}

#[test]
fn failure_names_the_first_unresolved_reference() {
    let env = varmap(&[("HOME", "/home/me")]);
    match parse_vars(true, None, &env, "$HOME/$FIRST_GONE/$SECOND_GONE") {
        Err(ParsingVarError::NotFound(name)) => assert_eq!(name, "FIRST_GONE"),
        other => panic!("expected the first unresolved name, got {:?}", other),
    }
}

#[test]
fn duplicate_link_names_resolve_to_the_last_link() {
    // names need not be unique; the goal closure takes the later link
    let older = Link::new(
        "dotrc".to_string(),
        VariablePath::new("/home/me/.dotrc".to_string()),
        SourceFile::SourceWithNoSystem("files/dotrc.old".to_string()),
    );
    let newer = Link::new(
        "dotrc".to_string(),
        VariablePath::new("/home/me/.dotrc".to_string()),
        SourceFile::SourceWithNoSystem("files/dotrc.new".to_string()),
    );
    let links = vec![older, newer];
    let goals = goalmap(vec![]);
    let flattened = goal(&["dotrc"], &[]).to_links(&links, &goals).unwrap();
    assert_eq!(flattened.len(), 1);
    match &flattened[0].src {
        SourceFile::SourceWithNoSystem(p) => assert_eq!(p, "files/dotrc.new"),
        other => panic!("expected the later link's source, got {:?}", other),
    }
}

#[test]
fn new_goal_drops_an_empty_requirement_list() {
    let g = Goal::new(Vec::new());
    assert!(g.enabled);
    assert!(g.links.is_empty());
    assert!(g.required_goals.is_none());
    let g = Goal::new(vec!["a".to_string()]);
    assert_eq!(g.required_goals, Some(vec!["a".to_string()]));
}
