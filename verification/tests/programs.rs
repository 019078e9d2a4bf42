//! Program entries: matching installed-program names and resolving what a
//! program entry asks to sync.

use dotlinks::config::ProjectConfig;
use dotlinks::goals::Goal;
use dotlinks::link::{SourceFile, VariablePath, Link};
use dotlinks::packages::{GoalType, ProgramConfig};

fn plain_link(name: &str, dest: &str, src_path: &str) -> Link {
    Link::new(
        name.to_string(),
        VariablePath::new(dest.to_string()),
        SourceFile::SourceWithNoSystem(src_path.to_string()),
    )
}

fn program(goal: GoalType) -> ProgramConfig {
    ProgramConfig {
        app_name: "nvim".to_string(),
        app_aliases: Some(vec!["vim".to_string(), "vi".to_string()]),
        checker_script: None,
        goal,
    }
}

fn project_with(links: Vec<Link>) -> ProjectConfig {
    let mut p = ProjectConfig::new("proj".to_string());
    p.links = links;
    p
}

#[test]
fn program_names_match_name_and_aliases() {
    let pc = program(GoalType::LinkName { link_name: "vimrc".to_string() });
    assert!(pc.name_matches(&"nvim".to_string()));
    assert!(pc.name_matches(&"vi".to_string()));
    assert!(!pc.name_matches(&"emacs".to_string()));
}

#[test]
fn link_name_entry_selects_the_named_link() {
    let project = project_with(vec![
        plain_link("bashrc", "/home/me/.bashrc", "files/bashrc"),
        plain_link("vimrc", "/home/me/.vimrc", "files/vimrc"),
    ]);
    let pc = program(GoalType::LinkName { link_name: "vimrc".to_string() });
    let links = pc.get_goal(&project).unwrap();
    assert_eq!(links.len(), 1);
    assert_eq!(links[0].name, "vimrc");
    let pc = program(GoalType::LinkName { link_name: "ghost".to_string() });
    assert!(pc.get_goal(&project).unwrap().is_empty());
}

#[test]
fn link_name_entry_takes_the_first_duplicate() {
    // a program entry, unlike the goal closure, selects the earlier link
    let project = project_with(vec![
        plain_link("dotrc", "/home/me/.dotrc.old", "files/dotrc.old"),
        plain_link("dotrc", "/home/me/.dotrc.new", "files/dotrc.new"),
    ]);
    let pc = program(GoalType::LinkName { link_name: "dotrc".to_string() });
    let links = pc.get_goal(&project).unwrap();
    assert_eq!(links.len(), 1);
    assert_eq!(links[0].destination.0, "/home/me/.dotrc.old");
}

#[test]
fn inline_link_entry_stands_for_itself() {
    let project = project_with(vec![]);
    let pc = program(GoalType::Link(plain_link("vimrc", "/home/me/.vimrc", "files/vimrc")));
    let links = pc.get_goal(&project).unwrap();
    assert_eq!(links.len(), 1);
    assert_eq!(links[0].destination.0, "/home/me/.vimrc");
}

#[test]
fn inline_goal_entry_flattens_against_the_project() {
    let project = {
        let p = project_with(vec![plain_link("vimrc", "/home/me/.vimrc", "files/vimrc")]);
        dotlinks::actions::goals_add(p, "editor".to_string(), Vec::new())
    };
    let pc = program(GoalType::InlineGoal(Goal {
        enabled: true,
        links: vec!["vimrc".to_string()],
        required_goals: None,
    }));
    let links = pc.get_goal(&project).unwrap();
    assert_eq!(links.len(), 1);
    assert_eq!(links[0].name, "vimrc");
}

#[test]
fn named_goal_entry_resolves_through_the_goal_table() {
    let p = project_with(vec![plain_link("vimrc", "/home/me/.vimrc", "files/vimrc")]);
    let p = dotlinks::actions::goals_add(p, "editor".to_string(), Vec::new());
    let p = dotlinks::actions::goals_add_file(p, &"editor".to_string(), "vimrc".to_string())
        .unwrap();
    let pc = program(GoalType::GoalName { goal: "editor".to_string() });
    let links = pc.get_goal(&p).unwrap();
    assert_eq!(links.len(), 1);
    assert_eq!(links[0].name, "vimrc");
}
