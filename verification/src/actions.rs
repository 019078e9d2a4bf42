//! The operations the command-line surface performs on a project: register a
//! file as a link (or a per-system variant of one), revert a link, prune
//! entries whose files are gone, select the links a sync run works on,
//! manage the system registry, and edit goals. All filesystem work (what
//! exists on disk, moving and linking files) stays with the caller, which
//! hands in plain values and carries the returned values back out.

use crate::config::{ProjectConfig, SystemConfig};
use crate::goals::{to_links_model, Goal, GoalErrShape, GoalError, GoalShape};
use crate::link::{opt_str_view, opt_sys_view, InsertError, Link, LinkShape, Shape, SourceFile,
    VariablePath};
use crate::strmap::str_set;
use crate::System;
use vstd::prelude::*;

verus! {

/// The goal-management subcommands of the command-line surface.
#[derive(Debug)]
pub enum GoalSubCommand {
    List,
    Add { name: String, depends: Vec<String> },
    AddFile { goal: String, files: Vec<String> },
}

/// Why a project cannot be added to the system registry.
#[derive(Debug)]
pub enum ManagementError {
    ProjectPathDoesNotExist(String),
}

/// Register the project in the system registry, optionally making it the
/// default project; the caller says whether the project path exists on disk.
pub fn manage(sysconfig: SystemConfig, project_name: String, project_path: String, path_exists:
    bool, make_default: bool) -> (r: Result<SystemConfig, ManagementError>)
    requires
        sysconfig.wf(),
    ensures
        match r {
            Ok(c) => path_exists && c.wf() && c.projects@ == sysconfig.projects@.insert(
                project_name@,
                (crate::config::ProjectOutputShape { system: None, path: project_path@ }),
            ) && opt_str_view(c.default) == (if make_default {
                Some(project_path@)
            } else {
                opt_str_view(sysconfig.default)
            }),
            Err(e) => !path_exists && (match e {
                ManagementError::ProjectPathDoesNotExist(p) => p@ == project_path@,
            }),
        },
{
    if !path_exists {
        return Err(ManagementError::ProjectPathDoesNotExist(project_path));
    }
    let mut config = sysconfig;
    config.add_project(project_name, project_path.clone());
    if make_default {
        config.default = Some(project_path);
    }
    Ok(config)
}

/// Add a goal named `name` requiring `depends` to the project, replacing any
/// goal of that name; a project without a goal table gains one.
pub fn goals_add(project: ProjectConfig, name: String, depends: Vec<String>) -> (r: ProjectConfig)
    requires
        project.wf(),
    ensures
        r.wf(),
        match r.goals {
            Some(gm2) => gm2@ == (match project.goals {
                Some(gm) => gm@,
                None => Map::<Seq<char>, GoalShape>::empty(),
            }).insert(
                name@,
                (GoalShape {
                    enabled: true,
                    links: Seq::empty(),
                    required_goals: if depends.deep_view().len() == 0 {
                        None
                    } else {
                        Some(depends.deep_view())
                    },
                }),
            ),
            None => false,
        },
        r.name == project.name && r.id == project.id && r.default == project.default && r.systems
            == project.systems && r.links == project.links,
{
    let ProjectConfig { name: pname, id, default, systems, links, goals } = project;
    let g = Goal::new(depends);
    let mut gm = match goals {
        Some(gm) => gm,
        None => crate::goals::GoalMap::new(),
    };
    gm.upsert(name, g);
    ProjectConfig { name: pname, id, default, systems, links, goals: Some(gm) }
}

/// Record `file` among the named goal's links. Fails when the project has no
/// goal table or no goal of that name, naming the goal.
pub fn goals_add_file(project: ProjectConfig, goal: &String, file: String) -> (r: Result<
    ProjectConfig,
    GoalError,
>)
    requires
        project.wf(),
    ensures
        match r {
            Ok(p2) => p2.wf() && (match (project.goals, p2.goals) {
                (Some(gm), Some(gm2)) => gm@.dom().contains(goal@) && gm2@ == gm@.insert(
                    goal@,
                    (GoalShape {
                        enabled: gm@[goal@].enabled,
                        links: gm@[goal@].links.push(file@),
                        required_goals: gm@[goal@].required_goals,
                    }),
                ),
                _ => false,
            }) && p2.name == project.name && p2.id == project.id && p2.default == project.default
                && p2.systems == project.systems && p2.links == project.links,
            Err(e) => match project.goals {
                None => e@ == GoalErrShape::NoGoals,
                Some(gm) => !gm@.dom().contains(goal@) && e@ == GoalErrShape::GoalNotFound(goal@),
            },
        },
{
    let ProjectConfig { name: pname, id, default, systems, links, goals } = project;
    let mut gm = match goals {
        Some(gm) => gm,
        None => {
            return Err(GoalError::NoGoals);
        },
    };
    let g2 = match gm.get(goal) {
        None => {
            return Err(GoalError::GoalNotFound(goal.clone()));
        },
        Some(g) => {
            let mut g2 = g.duplicate();
            g2.links.push(file);
            proof {
                assert(g2.links.deep_view() =~= gm@[goal@].links.push(file@));
            }
            g2
        },
    };
    gm.upsert(goal.clone(), g2);
    Ok(ProjectConfig { name: pname, id, default, systems, links, goals: Some(gm) })
}

/// A copy of a link-set with the same values.
pub fn clone_links(v: &Vec<Link>) -> (r: Vec<Link>)
    requires
        forall|i: int| 0 <= i < v@.len() ==> (#[trigger] v@[i]).inv(),
    ensures
        r.deep_view() == v.deep_view(),
        forall|i: int| 0 <= i < r@.len() ==> (#[trigger] r@[i]).inv(),
{
    let mut out: Vec<Link> = Vec::new();
    let n = v.len();
    let mut i: usize = 0;
    while i < n
        invariant
            n == v@.len(),
            i <= n,
            forall|j: int| 0 <= j < v@.len() ==> (#[trigger] v@[j]).inv(),
            out@.len() == i,
            forall|j: int| 0 <= j < i ==> (#[trigger] out@[j]).inv() && out@[j]@ == v@[j]@,
        decreases n - i,
    {
        out.push(v[i].duplicate());
        i = i + 1;
    }
    proof {
        assert(out.deep_view() =~= v.deep_view());
    }
    out
}

/// Some link's source-file union holds the path `p`.
pub open spec fn links_have_path(links: Seq<LinkShape>, p: Seq<char>) -> bool {
    exists|i: int| 0 <= i < links.len() && (#[trigger] links[i]).src.has_path(p)
}

/// Some link's destination is (textually) `d`.
pub open spec fn links_have_destination(links: Seq<LinkShape>, d: Seq<char>) -> bool {
    exists|i: int| 0 <= i < links.len() && (#[trigger] links[i]).destination == d
}

/// Why a file could not be adopted into the project.
#[derive(Debug)]
pub enum AddError {
    /// The output destination is already on disk or already claimed by a
    /// link's source-file union; carries the destination.
    DestinationExists(String),
    /// Adding a variant of an existing link needs an active system.
    NoSystem,
    /// The system already has an entry in the matched link.
    Conflict(InsertError),
}

pub enum AddErrShape {
    DestinationExists(Seq<char>),
    NoSystem,
    Conflict(Seq<char>, Seq<char>),
}

impl View for AddError {
    type V = AddErrShape;

    open spec fn view(&self) -> AddErrShape {
        match self {
            AddError::DestinationExists(d) => AddErrShape::DestinationExists(d@),
            AddError::NoSystem => AddErrShape::NoSystem,
            AddError::Conflict(e) => AddErrShape::Conflict(e.system@, e.path@),
        }
    }
}

/// Every link whose destination is `orig` gains the (sys, dest) variant;
/// the first conflicting link fails the whole operation.
pub open spec fn insert_all(
    links: Seq<LinkShape>,
    orig: Seq<char>,
    sys: Seq<char>,
    dest: Seq<char>,
) -> Result<Seq<LinkShape>, AddErrShape>
    decreases links.len(),
{
    if links.len() == 0 {
        Ok(Seq::empty())
    } else {
        let l = links[0];
        if l.destination == orig {
            if l.src.sys_map().dom().contains(sys) {
                Err(AddErrShape::Conflict(sys, dest))
            } else {
                match insert_all(links.drop_first(), orig, sys, dest) {
                    Ok(r) => Ok(
                        seq![
                            LinkShape {
                                name: l.name,
                                destination: l.destination,
                                src: l.src.insert_model(sys, dest),
                            },
                        ] + r,
                    ),
                    Err(e) => Err(e),
                }
            }
        } else {
            match insert_all(links.drop_first(), orig, sys, dest) {
                Ok(r) => Ok(seq![l] + r),
                Err(e) => Err(e),
            }
        }
    }
}

/// What adopting a file does to the link-set: it is refused when the output
/// destination is already taken; a link already targeting the original
/// location gains a per-system variant (which needs an active system);
/// otherwise a fresh link is appended, system-tagged when a system is
/// active.
pub open spec fn add_model(
    links: Seq<LinkShape>,
    name: Seq<char>,
    orig: Seq<char>,
    dest: Seq<char>,
    sys: Option<Seq<char>>,
    dest_on_disk: bool,
) -> Result<Seq<LinkShape>, AddErrShape> {
    if dest_on_disk || links_have_path(links, dest) {
        Err(AddErrShape::DestinationExists(dest))
    } else if links_have_destination(links, orig) {
        match sys {
            None => Err(AddErrShape::NoSystem),
            Some(s) => insert_all(links, orig, s, dest),
        }
    } else {
        let src = match sys {
            Some(s) => Shape::WithSystem { system: s, path: dest },
            None => Shape::NoSystem { path: dest },
        };
        Ok(links.push(LinkShape { name, destination: orig, src }))
    }
}

/// Adopt a file into the project's link-set (see `add_model`). The caller
/// reports whether the output destination exists on disk and performs the
/// actual file move only after this succeeds.
pub fn add(project: ProjectConfig, name: String, original_location: VariablePath, output_dest:
    String, system: Option<System>, dest_on_disk: bool) -> (r: Result<ProjectConfig, AddError>)
    requires
        project.wf(),
    ensures
        match r {
            Ok(p2) => add_model(
                project.links.deep_view(),
                name@,
                original_location@,
                output_dest@,
                opt_sys_view(system),
                dest_on_disk,
            ) == Ok::<Seq<LinkShape>, AddErrShape>(p2.links.deep_view()) && p2.wf() && p2.name
                == project.name && p2.id == project.id && p2.default == project.default
                && p2.systems == project.systems && p2.goals == project.goals,
            Err(e) => add_model(
                project.links.deep_view(),
                name@,
                original_location@,
                output_dest@,
                opt_sys_view(system),
                dest_on_disk,
            ) == Err::<Seq<LinkShape>, AddErrShape>(e@),
        },
{
    let ghost lv = project.links.deep_view();
    let taken = match project.get_link_for_file(output_dest.as_str()) {
        Some(i) => {
            proof {
                assert(lv[i as int] == project.links@[i as int]@);
                assert(links_have_path(lv, output_dest@));
            }
            true
        },
        None => {
            proof {
                assert forall|i: int| 0 <= i < lv.len() implies !(#[trigger] lv[i]).src.has_path(
                    output_dest@,
                ) by {
                    assert(lv[i] == project.links@[i]@);
                }
            }
            false
        },
    };
    if dest_on_disk || taken {
        return Err(AddError::DestinationExists(output_dest));
    }
    let n = project.links.len();
    let mut found = false;
    let mut i: usize = 0;
    while i < n
        invariant
            n == project.links@.len(),
            lv == project.links.deep_view(),
            i <= n,
            found == exists|j: int|
                0 <= j < i && (#[trigger] lv[j]).destination == original_location@,
        decreases n - i,
    {
        if project.links[i].destination.0 == original_location.0 {
            proof {
                assert(lv[i as int].destination == original_location@);
            }
            found = true;
        }
        i = i + 1;
    }
    if !found {
        proof {
            assert(!links_have_destination(lv, original_location@));
        }
        let source = match &system {
            Some(sys) => SourceFile::SourceWithSystem(System(sys.0.clone()), output_dest),
            None => SourceFile::SourceWithNoSystem(output_dest),
        };
        let ProjectConfig { name: pname, id, default, systems, links, goals } = project;
        let mut links = links;
        links.push(Link::new(name, original_location, source));
        proof {
            assert(links.deep_view() =~= lv.push(links@[lv.len() as int]@));
        }
        return Ok(ProjectConfig { name: pname, id, default, systems, links, goals });
    }
    proof {
        assert(links_have_destination(lv, original_location@));
    }
    let sys = match &system {
        Some(s) => s,
        None => {
            return Err(AddError::NoSystem);
        },
    };
    let mut out: Vec<Link> = Vec::new();
    let mut i: usize = 0;
    proof {
        assert(lv.skip(0) =~= lv);
        assert(out.deep_view() =~= Seq::<LinkShape>::empty());
        match insert_all(lv, original_location@, sys@, output_dest@) {
            Ok(rest) => {
                assert(Seq::<LinkShape>::empty() + rest =~= rest);
            },
            Err(_) => {},
        }
    }
    while i < n
        invariant
            n == project.links@.len(),
            lv == project.links.deep_view(),
            i <= n,
            !dest_on_disk,
            !links_have_path(lv, output_dest@),
            links_have_destination(lv, original_location@),
            opt_sys_view(system) == Some(sys@),
            forall|j: int| 0 <= j < project.links@.len() ==> (#[trigger] project.links@[j]).inv(),
            forall|j: int| 0 <= j < out@.len() ==> (#[trigger] out@[j]).inv(),
            match insert_all(lv.skip(i as int), original_location@, sys@, output_dest@) {
                Ok(rest) => insert_all(lv, original_location@, sys@, output_dest@) == Ok::<
                    Seq<LinkShape>,
                    AddErrShape,
                >(out.deep_view() + rest),
                Err(e) => insert_all(lv, original_location@, sys@, output_dest@) == Err::<
                    Seq<LinkShape>,
                    AddErrShape,
                >(e),
            },
        decreases n - i,
    {
        let ghost tail = lv.skip(i as int);
        proof {
            assert(tail.len() == n - i);
            assert(tail[0] == lv[i as int]);
            assert(tail.drop_first() =~= lv.skip(i + 1));
            assert(lv[i as int] == project.links@[i as int]@);
        }
        let ghost out_old = out.deep_view();
        if project.links[i].destination.0 == original_location.0 {
            let dup = project.links[i].duplicate();
            let Link { name: lname, destination: ldest, src: lsrc } = dup;
            match lsrc.insert_link(sys, output_dest.as_str()) {
                Err(e) => {
                    proof {
                        assert(insert_all(tail, original_location@, sys@, output_dest@) == Err::<
                            Seq<LinkShape>,
                            AddErrShape,
                        >(AddErrShape::Conflict(sys@, output_dest@)));
                        assert(insert_all(lv, original_location@, sys@, output_dest@) == Err::<
                            Seq<LinkShape>,
                            AddErrShape,
                        >(AddErrShape::Conflict(sys@, output_dest@)));
                        assert(e.system@ == sys@ && e.path@ == output_dest@);
                        assert(add_model(
                            lv,
                            name@,
                            original_location@,
                            output_dest@,
                            opt_sys_view(system),
                            dest_on_disk,
                        ) == Err::<Seq<LinkShape>, AddErrShape>(AddErrShape::Conflict(
                            sys@,
                            output_dest@,
                        )));
                    }
                    return Err(AddError::Conflict(e));
                },
                Ok(ns) => {
                    out.push(Link { name: lname, destination: ldest, src: ns });
                    proof {
                        let newl = LinkShape {
                            name: tail[0].name,
                            destination: tail[0].destination,
                            src: tail[0].src.insert_model(sys@, output_dest@),
                        };
                        assert(out.deep_view() =~= out_old.push(newl));
                        match insert_all(lv.skip(i + 1), original_location@, sys@, output_dest@) {
                            Ok(rest2) => {
                                assert(insert_all(tail, original_location@, sys@, output_dest@)
                                    == Ok::<Seq<LinkShape>, AddErrShape>(seq![newl] + rest2));
                                assert(out_old + (seq![newl] + rest2) =~= out_old.push(newl)
                                    + rest2);
                            },
                            Err(_) => {},
                        }
                    }
                },
            }
        } else {
            out.push(project.links[i].duplicate());
            proof {
                assert(out.deep_view() =~= out_old.push(tail[0]));
                match insert_all(lv.skip(i + 1), original_location@, sys@, output_dest@) {
                    Ok(rest2) => {
                        assert(insert_all(tail, original_location@, sys@, output_dest@) == Ok::<
                            Seq<LinkShape>,
                            AddErrShape,
                        >(seq![tail[0]] + rest2));
                        assert(out_old + (seq![tail[0]] + rest2) =~= out_old.push(tail[0]) + rest2);
                    },
                    Err(_) => {},
                }
            }
        }
        i = i + 1;
    }
    proof {
        assert(lv.skip(n as int) =~= Seq::<LinkShape>::empty());
        assert(insert_all(lv.skip(n as int), original_location@, sys@, output_dest@) == Ok::<
            Seq<LinkShape>,
            AddErrShape,
        >(Seq::empty()));
        match insert_all(lv, original_location@, sys@, output_dest@) {
            Ok(rest) => {
                assert(out.deep_view() + Seq::<LinkShape>::empty() =~= out.deep_view());
            },
            Err(_) => {
                assert(false);
            },
        }
    }
    let ProjectConfig { name: pname, id, default, systems, links: _, goals } = project;
    Ok(ProjectConfig { name: pname, id, default, systems, links: out, goals })
}

/// The link-set once every source entry whose path lies in `missing` is
/// dropped: each link's union is reconstituted (see `prune_model`), and a
/// link left with no entry is dropped from the set.
pub open spec fn prune_links_model(links: Seq<LinkShape>, missing: Set<Seq<char>>) -> Seq<
    LinkShape,
>
    decreases links.len(),
{
    if links.len() == 0 {
        Seq::empty()
    } else {
        let rest = prune_links_model(links.drop_last(), missing);
        match crate::link::prune_model(links.last().src, missing) {
            Some(s2) => rest.push(
                LinkShape {
                    name: links.last().name,
                    destination: links.last().destination,
                    src: s2,
                },
            ),
            None => rest,
        }
    }
}

/// The destinations of the links that pruning drops entirely, in order; the
/// caller removes their symlinks.
pub open spec fn dropped_destinations(links: Seq<LinkShape>, missing: Set<Seq<char>>) -> Seq<
    Seq<char>,
>
    decreases links.len(),
{
    if links.len() == 0 {
        Seq::empty()
    } else {
        let rest = dropped_destinations(links.drop_last(), missing);
        match crate::link::prune_model(links.last().src, missing) {
            Some(_) => rest,
            None => rest.push(links.last().destination),
        }
    }
}

/// Drop every source entry whose path is in `missing` (the caller's list of
/// paths no longer on disk). Returns the pruned project and the destinations
/// of the links that were dropped altogether.
pub fn prune(project: ProjectConfig, missing: &Vec<String>) -> (r: (ProjectConfig, Vec<
    VariablePath,
>))
    requires
        project.wf(),
    ensures
        r.0.wf(),
        r.0.links.deep_view() == prune_links_model(project.links.deep_view(), str_set(missing@)),
        r.1.deep_view() == dropped_destinations(project.links.deep_view(), str_set(missing@)),
        r.0.name == project.name && r.0.id == project.id && r.0.default == project.default
            && r.0.systems == project.systems && r.0.goals == project.goals,
{
    let ghost lv = project.links.deep_view();
    let ghost ms = str_set(missing@);
    let mut out: Vec<Link> = Vec::new();
    let mut dropped: Vec<VariablePath> = Vec::new();
    let n = project.links.len();
    let mut i: usize = 0;
    proof {
        assert(lv.take(0) =~= Seq::<LinkShape>::empty());
        assert(out.deep_view() =~= prune_links_model(lv.take(0), ms));
        assert(dropped.deep_view() =~= dropped_destinations(lv.take(0), ms));
    }
    while i < n
        invariant
            project.wf(),
            n == project.links@.len(),
            lv == project.links.deep_view(),
            ms == str_set(missing@),
            i <= n,
            forall|j: int| 0 <= j < out@.len() ==> (#[trigger] out@[j]).inv(),
            out.deep_view() == prune_links_model(lv.take(i as int), ms),
            dropped.deep_view() == dropped_destinations(lv.take(i as int), ms),
        decreases n - i,
    {
        proof {
            assert(lv.take(i + 1).drop_last() =~= lv.take(i as int));
            assert(lv.take(i + 1).last() == lv[i as int]);
            assert(lv[i as int] == project.links@[i as int]@);
        }
        let l = &project.links[i];
        let ghost out_old = out.deep_view();
        let ghost dropped_old = dropped.deep_view();
        match l.src.prune_entries(missing) {
            Some(s2) => {
                out.push(Link { name: l.name.clone(), destination: VariablePath(
                    l.destination.0.clone(),
                ), src: s2 });
                proof {
                    assert(out.deep_view() =~= out_old.push(out@.last()@));
                }
            },
            None => {
                dropped.push(VariablePath(l.destination.0.clone()));
                proof {
                    assert(dropped.deep_view() =~= dropped_old.push(lv[i as int].destination));
                }
            },
        }
        i = i + 1;
    }
    proof {
        assert(lv.take(n as int) =~= lv);
    }
    let ProjectConfig { name: pname, id, default, systems, links: _, goals } = project;
    (ProjectConfig { name: pname, id, default, systems, links: out, goals }, dropped)
}

/// Why a path could not be reverted: no link's source carries it.
#[derive(Debug)]
pub enum RevertError {
    PathNotFound(String),
}

/// The destination of the last link whose union carries the path `p`.
pub open spec fn revert_dest_model(links: Seq<LinkShape>, p: Seq<char>) -> Option<Seq<char>>
    decreases links.len(),
{
    if links.len() == 0 {
        None
    } else if links.last().src.has_path(p) {
        Some(links.last().destination)
    } else {
        revert_dest_model(links.drop_last(), p)
    }
}

/// Take the source entry at `path` out of the project: every entry carrying
/// that path is removed, a link left empty is dropped, and the destination
/// of the (last) link that carried it is returned so the caller can restore
/// the file there. Fails, naming the path, when no link carries it.
pub fn revert(project: ProjectConfig, path: &str) -> (r: Result<
    (ProjectConfig, VariablePath),
    RevertError,
>)
    requires
        project.wf(),
    ensures
        match r {
            Ok((p2, dest)) => revert_dest_model(project.links.deep_view(), path@) == Some(dest@)
                && p2.wf() && p2.links.deep_view() == prune_links_model(
                project.links.deep_view(),
                Set::empty().insert(path@),
            ) && p2.name == project.name && p2.id == project.id && p2.default == project.default
                && p2.systems == project.systems && p2.goals == project.goals,
            Err(e) => revert_dest_model(project.links.deep_view(), path@) is None && (match e {
                RevertError::PathNotFound(p) => p@ == path@,
            }),
        },
{
    let ghost lv = project.links.deep_view();
    let ghost ms = Set::<Seq<char>>::empty().insert(path@);
    let mut missing: Vec<String> = Vec::new();
    missing.push(path.to_owned());
    proof {
        assert forall|x: Seq<char>| str_set(missing@).contains(x) <==> ms.contains(x) by {
            if str_set(missing@).contains(x) {
                let i = choose|i: int| 0 <= i < missing@.len() && #[trigger] missing@[i]@ == x;
                assert(x == path@);
            }
            if ms.contains(x) {
                assert(missing@[0]@ == x);
            }
        }
        assert(str_set(missing@) =~= ms);
    }
    let mut out: Vec<Link> = Vec::new();
    let mut dest: Option<VariablePath> = None;
    let n = project.links.len();
    let mut i: usize = 0;
    proof {
        assert(lv.take(0) =~= Seq::<LinkShape>::empty());
        assert(out.deep_view() =~= prune_links_model(lv.take(0), ms));
    }
    while i < n
        invariant
            project.wf(),
            n == project.links@.len(),
            lv == project.links.deep_view(),
            ms == Set::<Seq<char>>::empty().insert(path@),
            ms == str_set(missing@),
            i <= n,
            forall|j: int| 0 <= j < out@.len() ==> (#[trigger] out@[j]).inv(),
            out.deep_view() == prune_links_model(lv.take(i as int), ms),
            (match dest {
                Some(d) => Some(d@),
                None => None::<Seq<char>>,
            }) == revert_dest_model(lv.take(i as int), path@),
        decreases n - i,
    {
        proof {
            assert(lv.take(i + 1).drop_last() =~= lv.take(i as int));
            assert(lv.take(i + 1).last() == lv[i as int]);
            assert(lv[i as int] == project.links@[i as int]@);
        }
        let l = &project.links[i];
        if l.src.contains_path(path) {
            dest = Some(VariablePath(l.destination.0.clone()));
        }
        let ghost out_old = out.deep_view();
        match l.src.prune_entries(&missing) {
            Some(s2) => {
                out.push(Link { name: l.name.clone(), destination: VariablePath(
                    l.destination.0.clone(),
                ), src: s2 });
                proof {
                    assert(out.deep_view() =~= out_old.push(out@.last()@));
                }
            },
            None => {},
        }
        i = i + 1;
    }
    proof {
        assert(lv.take(n as int) =~= lv);
    }
    match dest {
        None => Err(RevertError::PathNotFound(path.to_owned())),
        Some(d) => {
            let ProjectConfig { name: pname, id, default, systems, links: _, goals } = project;
            Ok((ProjectConfig { name: pname, id, default, systems, links: out, goals }, d))
        },
    }
}

/// The links a sync run operates on: the whole link-set, or one goal's
/// flattened closure when a goal name is given.
pub fn links_for_sync(project: &ProjectConfig, goal: Option<&String>) -> (r: Result<
    Vec<Link>,
    GoalError,
>)
    requires
        project.wf(),
    ensures
        match goal {
            None => (match r {
                Ok(ls) => ls.deep_view() == project.links.deep_view() && (forall|i: int|
                    0 <= i < ls@.len() ==> (#[trigger] ls@[i]).inv()),
                Err(_) => false,
            }),
            Some(gname) => match project.goals {
                None => (match r {
                    Err(e) => e@ == GoalErrShape::NoGoals,
                    Ok(_) => false,
                }),
                Some(gm) => if gm@.dom().contains(gname@) {
                    match r {
                        Ok(ls) => to_links_model(gm@[gname@], project.links.deep_view(), gm@)
                            == Ok::<Seq<LinkShape>, GoalErrShape>(ls.deep_view()) && (forall|i: int|
                            0 <= i < ls@.len() ==> (#[trigger] ls@[i]).inv()),
                        Err(e) => to_links_model(gm@[gname@], project.links.deep_view(), gm@)
                            == Err::<Seq<LinkShape>, GoalErrShape>(e@),
                    }
                } else {
                    (match r {
                        Err(e) => e@ == GoalErrShape::GoalNotFound(gname@),
                        Ok(_) => false,
                    })
                },
            },
        },
{
    match goal {
        None => Ok(clone_links(&project.links)),
        Some(gname) => match &project.goals {
            None => Err(GoalError::NoGoals),
            Some(gm) => match gm.get(gname) {
                None => Err(GoalError::GoalNotFound(gname.clone())),
                Some(g) => g.to_links(&project.links, gm),
            },
        },
    }
}

} // verus!
