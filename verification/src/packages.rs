//! Program-conditional links: a program entry names an application (with
//! aliases and an optional shell check, which the surrounding tool runs) and
//! the links to sync when the program is installed — given inline, by goal
//! name, by link name, or as one inline link.

use crate::config::ProjectConfig;
use crate::goals::{find_link, find_link_exec, to_links_model, Goal, GoalErrShape, GoalError,
    GoalShape};
use crate::link::{Link, LinkShape};
use vstd::prelude::*;

verus! {

/// What a program entry points at.
#[derive(Debug)]
pub enum GoalType {
    InlineGoal(Goal),
    GoalName { goal: String },
    LinkName { link_name: String },
    Link(Link),
}

pub enum GoalTypeShape {
    InlineGoal(GoalShape),
    GoalName(Seq<char>),
    LinkName(Seq<char>),
    Link(LinkShape),
}

impl View for GoalType {
    type V = GoalTypeShape;

    open spec fn view(&self) -> GoalTypeShape {
        match self {
            GoalType::InlineGoal(g) => GoalTypeShape::InlineGoal(g@),
            GoalType::GoalName { goal } => GoalTypeShape::GoalName(goal@),
            GoalType::LinkName { link_name } => GoalTypeShape::LinkName(link_name@),
            GoalType::Link(l) => GoalTypeShape::Link(l@),
        }
    }
}

/// One program entry: the application's name and aliases, an optional shell
/// check script, and what to sync for it.
#[derive(Debug)]
pub struct ProgramConfig {
    pub app_name: String,
    pub app_aliases: Option<Vec<String>>,
    pub checker_script: Option<String>,
    pub goal: GoalType,
}

impl ProgramConfig {
    /// An inline link carries a well-formed source-file union.
    pub open spec fn wf(self) -> bool {
        match self.goal {
            GoalType::Link(l) => l.inv(),
            _ => true,
        }
    }

    /// Whether a directory entry's file name means this program is present:
    /// it equals the application's name or one of its aliases. The caller
    /// walks the search path and hands the file names in.
    pub fn name_matches(&self, file_name: &String) -> (r: bool)
        ensures
            r == (file_name@ == self.app_name@ || (match self.app_aliases {
                Some(al) => exists|i: int| 0 <= i < al@.len() && (#[trigger] al@[i])@ == file_name@,
                None => false,
            })),
    {
        if *file_name == self.app_name {
            return true;
        }
        match &self.app_aliases {
            Some(al) => {
                let hit = crate::strmap::str_list_contains(al, file_name);
                proof {
                    if hit {
                        let i = choose|i: int| 0 <= i < al@.len() && #[trigger] al@[i]@
                            == file_name@;
                        assert(al@[i]@ == file_name@);
                    }
                }
                hit
            },
            None => false,
        }
    }

    /// The links this entry asks to sync: an inline goal or a named goal is
    /// flattened against the project; a link name selects the first link of
    /// that name, or none at all; an inline link stands for itself.
    pub fn get_goal(&self, project: &ProjectConfig) -> (r: Result<Vec<Link>, GoalError>)
        requires
            self.wf(),
            project.wf(),
        ensures
            match self.goal {
                GoalType::InlineGoal(g) => (match project.goals {
                    None => (match r {
                        Err(e) => e@ == GoalErrShape::NoGoals,
                        Ok(_) => false,
                    }),
                    Some(gm) => (match r {
                        Ok(ls) => to_links_model(g@, project.links.deep_view(), gm@) == Ok::<
                            Seq<LinkShape>,
                            GoalErrShape,
                        >(ls.deep_view()),
                        Err(e) => to_links_model(g@, project.links.deep_view(), gm@) == Err::<
                            Seq<LinkShape>,
                            GoalErrShape,
                        >(e@),
                    }),
                }),
                GoalType::GoalName { goal } => (match project.goals {
                    None => (match r {
                        Err(e) => e@ == GoalErrShape::NoGoals,
                        Ok(_) => false,
                    }),
                    Some(gm) => if gm@.dom().contains(goal@) {
                        match r {
                            Ok(ls) => to_links_model(gm@[goal@], project.links.deep_view(), gm@)
                                == Ok::<Seq<LinkShape>, GoalErrShape>(ls.deep_view()),
                            Err(e) => to_links_model(gm@[goal@], project.links.deep_view(), gm@)
                                == Err::<Seq<LinkShape>, GoalErrShape>(e@),
                        }
                    } else {
                        (match r {
                            Err(e) => e@ == GoalErrShape::GoalNotFound(goal@),
                            Ok(_) => false,
                        })
                    },
                }),
                GoalType::LinkName { link_name } => (match r {
                    Ok(ls) => ls.deep_view() == (match find_link(
                        project.links.deep_view(),
                        link_name@,
                    ) {
                        Some(l) => seq![l],
                        None => Seq::<LinkShape>::empty(),
                    }),
                    Err(_) => false,
                }),
                GoalType::Link(l) => (match r {
                    Ok(ls) => ls.deep_view() == seq![l@],
                    Err(_) => false,
                }),
            },
    {
        match &self.goal {
            GoalType::InlineGoal(g) => g.get_links(project),
            GoalType::GoalName { goal } => match &project.goals {
                None => Err(GoalError::NoGoals),
                Some(gm) => match gm.get(goal) {
                    None => Err(GoalError::GoalNotFound(goal.clone())),
                    Some(g) => g.to_links(&project.links, gm),
                },
            },
            GoalType::LinkName { link_name } => {
                let mut out: Vec<Link> = Vec::new();
                match find_link_exec(&project.links, link_name) {
                    Some(l) => {
                        out.push(l.duplicate());
                        proof {
                            assert(out.deep_view() =~= seq![l@]);
                        }
                    },
                    None => {
                        proof {
                            assert(out.deep_view() =~= Seq::<LinkShape>::empty());
                        }
                    },
                }
                Ok(out)
            },
            GoalType::Link(l) => {
                let mut out: Vec<Link> = Vec::new();
                out.push(l.duplicate());
                proof {
                    assert(out.deep_view() =~= seq![l@]);
                }
                Ok(out)
            },
        }
    }
}

} // verus!
