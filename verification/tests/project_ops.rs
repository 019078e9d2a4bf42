//! The project-level operations: adopting files, reverting and pruning
//! links, registry management, goal editing, and sync selection.

use dotlinks::actions::{add, goals_add, goals_add_file, links_for_sync, manage, prune, revert,
    AddError, RevertError};
use dotlinks::config::{ProjectConfig, SystemConfig};
use dotlinks::goals::GoalError;
use dotlinks::link::{SourceFile, SysMap, VariablePath, Link};
use dotlinks::System;

fn sys(s: &str) -> System {
    System::from_str(s)
}

fn project_with(links: Vec<Link>) -> ProjectConfig {
    let mut p = ProjectConfig::new("proj".to_string());
    p.links = links;
    p
}

fn plain_link(name: &str, dest: &str, src_path: &str) -> Link {
    Link::new(
        name.to_string(),
        VariablePath::new(dest.to_string()),
        SourceFile::SourceWithNoSystem(src_path.to_string()),
    )
}

#[test]
fn fresh_project_has_a_name_derived_id() {
    let p = ProjectConfig::new("dotfiles".to_string());
    assert_eq!(p.name, "dotfiles");
    assert_eq!(p.id, "2824239393756054591");
    assert!(p.links.is_empty());
    assert!(p.goals.is_none());
    assert!(p.default.is_none());
}

#[test]
fn remove_start_strips_at_component_boundaries() {
    assert_eq!(
        ProjectConfig::remove_start("/home/me/proj", "/home/me/proj/files/a"),
        Some("files/a".to_string())
    );
    assert_eq!(
        ProjectConfig::remove_start("/home/me/proj", "/home/me/proj"),
        Some(String::new())
    );
    assert_eq!(ProjectConfig::remove_start("/home/me/proj", "/home/me/project"), None);
    assert_eq!(ProjectConfig::remove_start("/home/me/proj", "/elsewhere/x"), None);
    assert_eq!(
        ProjectConfig::remove_start("/home/me/", "/home/me/x"),
        Some("x".to_string())
    );
}

#[test]
fn add_registers_a_new_link() {
    let p = project_with(vec![]);
    let p2 = add(
        p,
        "bashrc".to_string(),
        VariablePath::new("/home/me/.bashrc".to_string()),
        "files/bashrc".to_string(),
        None,
        false,
    )
    .unwrap();
    assert_eq!(p2.links.len(), 1);
    assert_eq!(p2.links[0].name, "bashrc");
    assert_eq!(p2.links[0].destination.0, "/home/me/.bashrc");
    match &p2.links[0].src {
        SourceFile::SourceWithNoSystem(path) => assert_eq!(path, "files/bashrc"),
        other => panic!("expected the no-system shape, got {:?}", other),
    }
}

#[test]
fn add_with_a_system_tags_the_new_link() {
    let p = project_with(vec![]);
    let p2 = add(
        p,
        "bashrc".to_string(),
        VariablePath::new("/home/me/.bashrc".to_string()),
        "files/bashrc".to_string(),
        Some(sys("macos")),
        false,
    )
    .unwrap();
    match &p2.links[0].src {
        SourceFile::SourceWithSystem(s, path) => {
            assert_eq!(s.0, "macos");
            assert_eq!(path, "files/bashrc");
        }
        other => panic!("expected the system-tagged shape, got {:?}", other),
    }
}

#[test]
fn add_variant_to_an_existing_destination() {
    let p = project_with(vec![plain_link("bashrc", "/home/me/.bashrc", "files/bashrc")]);
    let p2 = add(
        p,
        "ignored".to_string(),
        VariablePath::new("/home/me/.bashrc".to_string()),
        "files/bashrc.mac".to_string(),
        Some(sys("macos")),
        false,
    )
    .unwrap();
    assert_eq!(p2.links.len(), 1);
    match &p2.links[0].src {
        SourceFile::DynamicWithDefaultPath(default, map) => {
            assert_eq!(default, "files/bashrc");
            assert_eq!(map.get(&"macos".to_string()), Some(&"files/bashrc.mac".to_string()));
        }
        other => panic!("expected the promoted default-path map, got {:?}", other),
    }
}

#[test]
fn add_variant_without_a_system_is_refused() {
    let p = project_with(vec![plain_link("bashrc", "/home/me/.bashrc", "files/bashrc")]);
    match add(
        p,
        "x".to_string(),
        VariablePath::new("/home/me/.bashrc".to_string()),
        "files/other".to_string(),
        None,
        false,
    ) {
        Err(AddError::NoSystem) => {}
        other => panic!("expected the missing-system error, got {:?}", other),
    }
}

#[test]
fn add_refuses_a_claimed_destination() {
    let p = project_with(vec![plain_link("bashrc", "/home/me/.bashrc", "files/bashrc")]);
    match add(
        p,
        "x".to_string(),
        VariablePath::new("/home/me/.vimrc".to_string()),
        "files/bashrc".to_string(),
        None,
        false,
    ) {
        Err(AddError::DestinationExists(d)) => assert_eq!(d, "files/bashrc"),
        other => panic!("expected the destination-exists error, got {:?}", other),
    }
    let p = project_with(vec![]);
    match add(
        p,
        "x".to_string(),
        VariablePath::new("/home/me/.vimrc".to_string()),
        "files/vimrc".to_string(),
        None,
        true,
    ) {
        Err(AddError::DestinationExists(d)) => assert_eq!(d, "files/vimrc"),
        other => panic!("expected the destination-exists error, got {:?}", other),
    }
}

#[test]
fn add_conflicting_variant_names_system_and_path() {
    let p = project_with(vec![Link::new(
        "bashrc".to_string(),
        VariablePath::new("/home/me/.bashrc".to_string()),
        SourceFile::SourceWithSystem(sys("macos"), "files/bashrc".to_string()),
    )]);
    match add(
        p,
        "x".to_string(),
        VariablePath::new("/home/me/.bashrc".to_string()),
        "files/two".to_string(),
        Some(sys("macos")),
        false,
    ) {
        Err(AddError::Conflict(e)) => {
            assert_eq!(e.system.0, "macos");
            assert_eq!(e.path, "files/two");
        }
        other => panic!("expected the conflict error, got {:?}", other),
    }
}

#[test]
fn revert_removes_the_entry_and_returns_the_destination() {
    let p = project_with(vec![
        plain_link("bashrc", "/home/me/.bashrc", "files/bashrc"),
        plain_link("vimrc", "/home/me/.vimrc", "files/vimrc"),
    ]);
    let (p2, dest) = revert(p, "files/vimrc").unwrap();
    assert_eq!(dest.0, "/home/me/.vimrc");
    assert_eq!(p2.links.len(), 1);
    assert_eq!(p2.links[0].name, "bashrc");
}

#[test]
fn revert_of_an_unknown_path_is_named() {
    let p = project_with(vec![plain_link("bashrc", "/home/me/.bashrc", "files/bashrc")]);
    match revert(p, "files/ghost") {
        Err(RevertError::PathNotFound(path)) => assert_eq!(path, "files/ghost"),
        other => panic!("expected the path-not-found error, got {:?}", other),
    }
}

#[test]
fn prune_drops_links_whose_files_are_gone() {
    let mut m = SysMap::new();
    m.insert_fresh("macos".to_string(), "files/bashrc.mac".to_string());
    let p = project_with(vec![
        Link::new(
            "bashrc".to_string(),
            VariablePath::new("/home/me/.bashrc".to_string()),
            SourceFile::DynamicWithDefaultPath("files/bashrc".to_string(), m),
        ),
        plain_link("vimrc", "/home/me/.vimrc", "files/vimrc"),
    ]);
    let missing = vec!["files/bashrc.mac".to_string(), "files/vimrc".to_string()];
    let (p2, dropped) = prune(p, &missing);
    assert_eq!(p2.links.len(), 1);
    match &p2.links[0].src {
        SourceFile::SourceWithNoSystem(path) => assert_eq!(path, "files/bashrc"),
        other => panic!("expected the collapsed no-system shape, got {:?}", other),
    }
    assert_eq!(dropped.len(), 1);
    assert_eq!(dropped[0].0, "/home/me/.vimrc");
}

#[test]
fn manage_registers_the_project() {
    let c = SystemConfig::new();
    let c2 = manage(c, "proj".to_string(), "/home/me/proj".to_string(), true, false).unwrap();
    assert_eq!(
        c2.projects.get(&"proj".to_string()).map(|p| p.path.clone()),
        Some("/home/me/proj".to_string())
    );
    assert!(c2.default.is_none());
    let c3 = manage(c2, "proj".to_string(), "/home/me/proj".to_string(), true, true).unwrap();
    assert_eq!(c3.default, Some("/home/me/proj".to_string()));
}

#[test]
fn manage_refuses_a_missing_project_path() {
    let c = SystemConfig::new();
    match manage(c, "proj".to_string(), "/gone".to_string(), false, false) {
        Err(dotlinks::actions::ManagementError::ProjectPathDoesNotExist(p)) => {
            assert_eq!(p, "/gone")
        }
        other => panic!("expected the missing-path error, got {:?}", other),
    }
}

#[test]
fn goals_add_creates_and_replaces() {
    let p = project_with(vec![]);
    let p = goals_add(p, "editor".to_string(), vec!["shell".to_string()]);
    let gm = p.goals.as_ref().unwrap();
    let g = gm.get(&"editor".to_string()).unwrap();
    assert_eq!(g.required_goals, Some(vec!["shell".to_string()]));
    let p = goals_add(p, "editor".to_string(), Vec::new());
    let gm = p.goals.as_ref().unwrap();
    assert_eq!(gm.len(), 1);
    assert!(gm.get(&"editor".to_string()).unwrap().required_goals.is_none());
}

#[test]
fn goals_add_file_extends_the_goal() {
    let p = project_with(vec![]);
    let p = goals_add(p, "editor".to_string(), Vec::new());
    let p = goals_add_file(p, &"editor".to_string(), "vimrc".to_string()).unwrap();
    let gm = p.goals.as_ref().unwrap();
    assert_eq!(gm.get(&"editor".to_string()).unwrap().links, vec!["vimrc".to_string()]);
    match goals_add_file(p, &"ghost".to_string(), "x".to_string()) {
        Err(GoalError::GoalNotFound(name)) => assert_eq!(name, "ghost"),
        other => panic!("expected the goal-not-found error, got {:?}", other),
    }
}

#[test]
fn goals_add_file_needs_a_goal_table() {
    let p = project_with(vec![]);
    match goals_add_file(p, &"editor".to_string(), "x".to_string()) {
        Err(GoalError::NoGoals) => {}
        other => panic!("expected the no-goals error, got {:?}", other),
    }
}

#[test]
fn sync_selection_takes_all_links_or_one_goal() {
    let p = project_with(vec![
        plain_link("bashrc", "/home/me/.bashrc", "files/bashrc"),
        plain_link("vimrc", "/home/me/.vimrc", "files/vimrc"),
    ]);
    let all = links_for_sync(&p, None).unwrap();
    assert_eq!(all.len(), 2);
    let p = goals_add(p, "editor".to_string(), Vec::new());
    let p = goals_add_file(p, &"editor".to_string(), "vimrc".to_string()).unwrap();
    let chosen = links_for_sync(&p, Some(&"editor".to_string())).unwrap();
    assert_eq!(chosen.len(), 1);
    assert_eq!(chosen[0].name, "vimrc");
    match links_for_sync(&p, Some(&"ghost".to_string())) {
        Err(GoalError::GoalNotFound(name)) => assert_eq!(name, "ghost"),
        other => panic!("expected the goal-not-found error, got {:?}", other),
    }
}

#[test]
fn get_link_for_file_finds_the_first_holder() {
    let p = project_with(vec![
        plain_link("bashrc", "/home/me/.bashrc", "files/bashrc"),
        plain_link("vimrc", "/home/me/.vimrc", "files/vimrc"),
    ]);
    assert_eq!(p.get_link_for_file("files/vimrc"), Some(1));
    assert_eq!(p.get_link_for_file("files/ghost"), None);
}
