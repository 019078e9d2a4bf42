//! Goals: named, enable-able bundles of link names that may require other
//! goals. A goal flattens to links by collecting its own link names, then,
//! for each required goal in order, that goal's full (recursive) list; the
//! collected names are deduplicated and then looked up in the link-set. A
//! goal whose requirements transitively include a goal already on the
//! traversal path is a fatal configuration error, as is a name that no goal
//! or no link carries.

use crate::link::{clone_string_vec, Link, LinkShape};
use crate::strmap::{lemma_assoc_map, str_list_contains, AssocMap};
use vstd::prelude::*;
use vstd::seq_lib::*;
use vstd::set_lib::lemma_len_subset;

verus! {

/// A named bundle of links plus the names of the goals it depends on.
#[derive(Debug)]
pub struct Goal {
    pub enabled: bool,
    pub links: Vec<String>,
    pub required_goals: Option<Vec<String>>,
}

pub struct GoalShape {
    pub enabled: bool,
    pub links: Seq<Seq<char>>,
    pub required_goals: Option<Seq<Seq<char>>>,
}

impl View for Goal {
    type V = GoalShape;

    open spec fn view(&self) -> GoalShape {
        GoalShape {
            enabled: self.enabled,
            links: self.links.deep_view(),
            required_goals: match self.required_goals {
                Some(v) => Some(v.deep_view()),
                None => None,
            },
        }
    }
}

/// The goal table of a project, keyed by goal name.
pub type GoalMap = AssocMap<Goal>;

/// Why a goal could not be flattened, with the name concerned.
#[derive(Debug)]
pub enum GoalError {
    /// A required goal that the goal table does not hold.
    GoalNotFound(String),
    /// A link name that the link-set does not hold.
    LinkNotFound(String),
    /// A goal reached again while its own requirements were being resolved.
    CyclicGoal(String),
    /// The project has no goal table at all.
    NoGoals,
}

pub enum GoalErrShape {
    GoalNotFound(Seq<char>),
    LinkNotFound(Seq<char>),
    CyclicGoal(Seq<char>),
    NoGoals,
}

impl View for GoalError {
    type V = GoalErrShape;

    open spec fn view(&self) -> GoalErrShape {
        match self {
            GoalError::GoalNotFound(n) => GoalErrShape::GoalNotFound(n@),
            GoalError::LinkNotFound(n) => GoalErrShape::LinkNotFound(n@),
            GoalError::CyclicGoal(n) => GoalErrShape::CyclicGoal(n@),
            GoalError::NoGoals => GoalErrShape::NoGoals,
        }
    }
}

/// The names a goal requires, in order; none when the field is absent.
pub open spec fn required_of(g: GoalShape) -> Seq<Seq<char>> {
    match g.required_goals {
        Some(r) => r,
        None => Seq::empty(),
    }
}

/// The traversal path is fit for the closure: visited goal names, each once,
/// each present in the goal table.
pub open spec fn path_wf(goals: Map<Seq<char>, GoalShape>, path: Seq<Seq<char>>) -> bool {
    &&& path.no_duplicates()
    &&& forall|j: int| 0 <= j < path.len() ==> goals.dom().contains(#[trigger] path[j])
    &&& goals.dom().finite()
}

/// The link names goal `g` flattens to: its own, then each required goal's
/// full list in order. `path` holds the goal names already being resolved;
/// meeting one of them again is the cyclic-goal error.
pub open spec fn closure_names(
    goals: Map<Seq<char>, GoalShape>,
    g: GoalShape,
    path: Seq<Seq<char>>,
) -> Result<Seq<Seq<char>>, GoalErrShape>
    decreases goals.dom().len() - path.len(), 1int, 0int
        when path_wf(goals, path)
{
    match closure_reqs(goals, required_of(g), path) {
        Ok(tail) => Ok(g.links + tail),
        Err(e) => Err(e),
    }
}

/// The concatenation of the full lists of the goals named in `reqs`.
pub open spec fn closure_reqs(
    goals: Map<Seq<char>, GoalShape>,
    reqs: Seq<Seq<char>>,
    path: Seq<Seq<char>>,
) -> Result<Seq<Seq<char>>, GoalErrShape>
    decreases goals.dom().len() - path.len(), 0int, reqs.len()
        when path_wf(goals, path)
{
    if reqs.len() == 0 {
        Ok(Seq::empty())
    } else {
        let r0 = reqs[0];
        if path.contains(r0) {
            Err(GoalErrShape::CyclicGoal(r0))
        } else if !goals.dom().contains(r0) {
            Err(GoalErrShape::GoalNotFound(r0))
        } else {
            proof {
                lemma_path_push(goals, path, r0);
            }
            match closure_names(goals, goals[r0], path.push(r0)) {
                Ok(first) => match closure_reqs(goals, reqs.drop_first(), path) {
                    Ok(rest) => Ok(first + rest),
                    Err(e) => Err(e),
                },
                Err(e) => Err(e),
            }
        }
    }
}

/// Extending a fit path with an unvisited goal keeps it fit and strictly
/// shrinks the remaining budget (a distinct path cannot outgrow the table).
pub proof fn lemma_path_push(
    goals: Map<Seq<char>, GoalShape>,
    path: Seq<Seq<char>>,
    r0: Seq<char>,
)
    requires
        path_wf(goals, path),
        !path.contains(r0),
        goals.dom().contains(r0),
    ensures
        path_wf(goals, path.push(r0)),
        path.push(r0).len() <= goals.dom().len(),
{
    let p2 = path.push(r0);
    assert forall|i: int, j: int| 0 <= i < j < p2.len() implies p2[i] != p2[j] by {
        if j == p2.len() - 1 {
            assert(path[i] == p2[i]);
            if p2[i] == r0 {
                assert(path.contains(r0));
            }
        }
    }
    assert(p2.no_duplicates());
    p2.unique_seq_to_set();
    assert forall|x: Seq<char>| p2.to_set().contains(x) implies goals.dom().contains(x) by {
        let i = choose|i: int| 0 <= i < p2.len() && p2[i] == x;
    }
    assert(p2.to_set() <= goals.dom());
    lemma_len_subset(p2.to_set(), goals.dom());
}

/// The collected names with later repetitions dropped: the first occurrence
/// of each name keeps its position.
pub open spec fn dedup_names(s: Seq<Seq<char>>) -> Seq<Seq<char>>
    decreases s.len(),
{
    if s.len() == 0 {
        Seq::empty()
    } else {
        let rest = dedup_names(s.drop_last());
        if rest.contains(s.last()) {
            rest
        } else {
            rest.push(s.last())
        }
    }
}

/// The first link of the given name, if the link-set holds one; a program
/// entry that names a link selects this one.
pub open spec fn find_link(links: Seq<LinkShape>, name: Seq<char>) -> Option<LinkShape>
    decreases links.len(),
{
    if links.len() == 0 {
        None
    } else if links[0].name == name {
        Some(links[0])
    } else {
        find_link(links.drop_first(), name)
    }
}

/// The last link of the given name, if the link-set holds one. Link names
/// need not be unique; in the goal closure a later duplicate of a name
/// shadows an earlier one.
pub open spec fn find_link_last(links: Seq<LinkShape>, name: Seq<char>) -> Option<LinkShape>
    decreases links.len(),
{
    if links.len() == 0 {
        None
    } else if links.last().name == name {
        Some(links.last())
    } else {
        find_link_last(links.drop_last(), name)
    }
}

/// Each name looked up in the link-set (the last link of the name wins),
/// failing on the first name that no link carries.
pub open spec fn links_for(names: Seq<Seq<char>>, links: Seq<LinkShape>) -> Result<
    Seq<LinkShape>,
    GoalErrShape,
>
    decreases names.len(),
{
    if names.len() == 0 {
        Ok(Seq::empty())
    } else {
        match find_link_last(links, names[0]) {
            None => Err(GoalErrShape::LinkNotFound(names[0])),
            Some(l) => match links_for(names.drop_first(), links) {
                Ok(r) => Ok(seq![l] + r),
                Err(e) => Err(e),
            },
        }
    }
}

/// What flattening a goal against a link-set and goal table yields.
pub open spec fn to_links_model(
    g: GoalShape,
    links: Seq<LinkShape>,
    goals: Map<Seq<char>, GoalShape>,
) -> Result<Seq<LinkShape>, GoalErrShape> {
    match closure_names(goals, g, Seq::empty()) {
        Ok(names) => links_for(dedup_names(names), links),
        Err(e) => Err(e),
    }
}

/// A requirement edge: goal `a` exists and names `b` among its requirements.
pub open spec fn req_edge(goals: Map<Seq<char>, GoalShape>, a: Seq<char>, b: Seq<char>) -> bool {
    goals.dom().contains(a) && required_of(goals[a]).contains(b)
}

/// A walk along requirement edges that returns to its start: the goal named
/// `q[0]` transitively requires itself.
pub open spec fn req_cycle(goals: Map<Seq<char>, GoalShape>, q: Seq<Seq<char>>) -> bool {
    &&& q.len() >= 2
    &&& q[0] == q.last()
    &&& forall|i: int| 0 <= i < q.len() - 1 ==> req_edge(goals, #[trigger] q[i], q[i + 1])
}

/// When a requirement list resolves, each name in it was found, was not on
/// the traversal path, and resolved in full itself.
proof fn lemma_reqs_ok(
    goals: Map<Seq<char>, GoalShape>,
    reqs: Seq<Seq<char>>,
    path: Seq<Seq<char>>,
    x: Seq<char>,
)
    requires
        path_wf(goals, path),
        closure_reqs(goals, reqs, path) is Ok,
        reqs.contains(x),
    ensures
        !path.contains(x),
        goals.dom().contains(x),
        closure_names(goals, goals[x], path.push(x)) is Ok,
    decreases reqs.len(),
{
    let r0 = reqs[0];
    assert(!path.contains(r0) && goals.dom().contains(r0));
    lemma_path_push(goals, path, r0);
    if x == r0 {
    } else {
        assert(reqs.drop_first().contains(x)) by {
            let i = choose|i: int| 0 <= i < reqs.len() && reqs[i] == x;
            assert(reqs.drop_first()[i - 1] == x);
        }
        lemma_reqs_ok(goals, reqs.drop_first(), path, x);
    }
}

/// A goal on a requirement cycle can never be flattened, whatever fit path
/// the traversal has already taken.
proof fn lemma_cycle_rec(goals: Map<Seq<char>, GoalShape>, q: Seq<Seq<char>>, path: Seq<Seq<char>>)
    requires
        path_wf(goals, path),
        req_cycle(goals, q),
    ensures
        !(closure_names(goals, goals[q[0]], path) is Ok),
    decreases goals.dom().len() - path.len(),
{
    if closure_names(goals, goals[q[0]], path) is Ok {
        assert(req_edge(goals, q[0], q[1]));
        assert(closure_reqs(goals, required_of(goals[q[0]]), path) is Ok);
        lemma_reqs_ok(goals, required_of(goals[q[0]]), path, q[1]);
        let q2 = q.drop_first().push(q[1]);
        assert(req_cycle(goals, q2)) by {
            assert(q2.len() == q.len());
            assert(q2[0] == q[1]);
            assert(q2.last() == q[1]);
            assert forall|i: int| 0 <= i < q2.len() - 1 implies req_edge(
                goals,
                #[trigger] q2[i],
                q2[i + 1],
            ) by {
                if i < q.len() - 2 {
                    assert(q2[i] == q[i + 1] && q2[i + 1] == q[i + 2]);
                    assert(req_edge(goals, q[i + 1], q[i + 2]));
                } else {
                    assert(q2[i] == q[q.len() - 1]);
                    assert(q[q.len() - 1] == q[0]);
                    assert(req_edge(goals, q[0], q[1]));
                }
            }
        }
        lemma_path_push(goals, path, q[1]);
        lemma_cycle_rec(goals, q2, path.push(q[1]));
        assert(false);
    }
}

/// Cycle detection: a goal whose required-goals transitively include itself
/// makes closure resolution fail; the traversal neither loops (it is a
/// terminating function) nor silently drops the cycle.
pub proof fn lemma_cycle_detected(goals: Map<Seq<char>, GoalShape>, q: Seq<Seq<char>>)
    requires
        goals.dom().finite(),
        req_cycle(goals, q),
    ensures
        closure_names(goals, goals[q[0]], Seq::empty()) is Err,
{
    assert(path_wf(goals, Seq::<Seq<char>>::empty()));
    lemma_cycle_rec(goals, q, Seq::empty());
    match closure_names(goals, goals[q[0]], Seq::empty()) {
        Ok(_) => {
            assert(false);
        },
        Err(_) => {},
    }
}

/// Goal-closure idempotence: flattening is a pure function of the goal, the
/// link-set and the goal table, so resolving twice against unchanged inputs
/// yields the same deduplicated list both times.
pub proof fn lemma_to_links_idempotent(
    g1: GoalShape,
    g2: GoalShape,
    links: Seq<LinkShape>,
    goals: Map<Seq<char>, GoalShape>,
)
    requires
        g1 == g2,
    ensures
        to_links_model(g1, links, goals) == to_links_model(g2, links, goals),
{
}

impl Goal {
    /// A fresh, enabled goal with no links; an empty requirement list is
    /// recorded as no list at all.
    pub fn new(required_goals: Vec<String>) -> (r: Goal)
        ensures
            r@.enabled == true,
            r@.links == Seq::<Seq<char>>::empty(),
            r@.required_goals == (if required_goals.deep_view().len() == 0 {
                None::<Seq<Seq<char>>>
            } else {
                Some(required_goals.deep_view())
            }),
    {
        let empty = required_goals.is_empty();
        Goal {
            enabled: true,
            links: Vec::new(),
            required_goals: if empty {
                None
            } else {
                Some(required_goals)
            },
        }
    }

    /// A copy with the same value (a derived clone carries no contract).
    pub fn duplicate(&self) -> (r: Goal)
        ensures
            r@ == self@,
    {
        let required = match &self.required_goals {
            Some(v) => Some(clone_string_vec(v)),
            None => None,
        };
        let r = Goal { enabled: self.enabled, links: clone_string_vec(&self.links), required_goals: required };
        proof {
            assert(r@.required_goals == self@.required_goals);
        }
        r
    }

    /// The link names this goal and its requirements flatten to, in order
    /// and not yet deduplicated (see `closure_names`).
    fn closure_names_exec(&self, all_goals: &GoalMap, path: &Vec<String>) -> (r: Result<
        Vec<String>,
        GoalError,
    >)
        requires
            all_goals.wf(),
            path_wf(all_goals@, path.deep_view()),
        ensures
            match r {
                Ok(names) => closure_names(all_goals@, self@, path.deep_view()) == Ok::<
                    Seq<Seq<char>>,
                    GoalErrShape,
                >(names.deep_view()),
                Err(e) => closure_names(all_goals@, self@, path.deep_view()) == Err::<
                    Seq<Seq<char>>,
                    GoalErrShape,
                >(e@),
            },
        decreases all_goals@.dom().len() - path@.len(), 1int,
    {
        let ghost goals = all_goals@;
        let ghost pathv = path.deep_view();
        let mut out = clone_string_vec(&self.links);
        let reqs: &Vec<String> = match &self.required_goals {
            Some(v) => v,
            None => {
                proof {
                    assert(required_of(self@) == Seq::<Seq<char>>::empty());
                    assert(closure_reqs(goals, required_of(self@), pathv) == Ok::<
                        Seq<Seq<char>>,
                        GoalErrShape,
                    >(Seq::empty()));
                    assert(out.deep_view() =~= self@.links + Seq::<Seq<char>>::empty());
                }
                return Ok(out);
            },
        };
        let ghost reqsv = reqs.deep_view();
        proof {
            assert(reqsv == required_of(self@));
        }
        let n = reqs.len();
        let mut j: usize = 0;
        let mut acc: Vec<String> = Vec::new();
        proof {
            assert(reqsv.skip(0) =~= reqsv);
            assert(acc.deep_view() =~= Seq::<Seq<char>>::empty());
            match closure_reqs(goals, reqsv, pathv) {
                Ok(rest) => {
                    assert(Seq::<Seq<char>>::empty() + rest =~= rest);
                },
                Err(_) => {},
            }
        }
        while j < n
            invariant
                all_goals.wf(),
                goals == all_goals@,
                pathv == path.deep_view(),
                path_wf(goals, pathv),
                n == reqs@.len(),
                reqsv == reqs.deep_view(),
                reqsv == required_of(self@),
                j <= n,
                match closure_reqs(goals, reqsv.skip(j as int), pathv) {
                    Ok(rest) => closure_reqs(goals, reqsv, pathv) == Ok::<
                        Seq<Seq<char>>,
                        GoalErrShape,
                    >(acc.deep_view() + rest),
                    Err(e) => closure_reqs(goals, reqsv, pathv) == Err::<
                        Seq<Seq<char>>,
                        GoalErrShape,
                    >(e),
                },
            decreases n - j,
        {
            let ghost tailv = reqsv.skip(j as int);
            proof {
                assert(tailv.len() == n - j);
                assert(tailv[0] == reqsv[j as int]);
                assert(tailv.drop_first() =~= reqsv.skip(j + 1));
            }
            let r0 = &reqs[j];
            if str_list_contains(path, r0) {
                proof {
                    assert(pathv.contains(reqsv[j as int])) by {
                        let i = choose|i: int| 0 <= i < path@.len() && #[trigger] path@[i]@ == r0@;
                        assert(pathv[i] == r0@);
                    }
                }
                proof {
                    assert(closure_reqs(goals, tailv, pathv) == Err::<
                        Seq<Seq<char>>,
                        GoalErrShape,
                    >(GoalErrShape::CyclicGoal(r0@)));
                    assert(closure_reqs(goals, reqsv, pathv) == Err::<
                        Seq<Seq<char>>,
                        GoalErrShape,
                    >(GoalErrShape::CyclicGoal(r0@)));
                    assert(required_of(self@) == reqsv);
                    assert(closure_names(goals, self@, pathv) == Err::<
                        Seq<Seq<char>>,
                        GoalErrShape,
                    >(GoalErrShape::CyclicGoal(r0@)));
                }
                return Err(GoalError::CyclicGoal(r0.clone()));
            }
            proof {
                assert(!pathv.contains(reqsv[j as int])) by {
                    if pathv.contains(reqsv[j as int]) {
                        let i = choose|i: int| 0 <= i < pathv.len() && pathv[i] == reqsv[j as int];
                        assert(path@[i]@ == r0@);
                    }
                }
            }
            match all_goals.get(r0) {
                None => {
                    proof {
                        assert(closure_reqs(goals, tailv, pathv) == Err::<
                            Seq<Seq<char>>,
                            GoalErrShape,
                        >(GoalErrShape::GoalNotFound(r0@)));
                        assert(closure_names(goals, self@, pathv) == Err::<
                            Seq<Seq<char>>,
                            GoalErrShape,
                        >(GoalErrShape::GoalNotFound(r0@)));
                    }
                    return Err(GoalError::GoalNotFound(r0.clone()));
                },
                Some(g) => {
                    proof {
                        lemma_path_push(goals, pathv, reqsv[j as int]);
                    }
                    let mut path2 = clone_string_vec(path);
                    path2.push(r0.clone());
                    proof {
                        assert(path2.deep_view() =~= pathv.push(reqsv[j as int]));
                    }
                    match g.closure_names_exec(all_goals, &path2) {
                        Err(e) => {
                            proof {
                                assert(closure_reqs(goals, tailv, pathv) == Err::<
                                    Seq<Seq<char>>,
                                    GoalErrShape,
                                >(e@));
                                assert(closure_names(goals, self@, pathv) == Err::<
                                    Seq<Seq<char>>,
                                    GoalErrShape,
                                >(e@));
                            }
                            return Err(e);
                        },
                        Ok(first) => {
                            let ghost acc_old = acc.deep_view();
                            let ghost firstv = first.deep_view();
                            let mut first = first;
                            acc.append(&mut first);
                            proof {
                                assert(acc.deep_view() =~= acc_old + firstv);
                                match closure_reqs(goals, reqsv.skip(j + 1), pathv) {
                                    Ok(rest2) => {
                                        assert(closure_reqs(goals, tailv, pathv) == Ok::<
                                            Seq<Seq<char>>,
                                            GoalErrShape,
                                        >(firstv + rest2));
                                        assert(acc_old + (firstv + rest2) =~= (acc_old + firstv)
                                            + rest2);
                                    },
                                    Err(_) => {},
                                }
                            }
                        },
                    }
                },
            }
            j = j + 1;
        }
        proof {
            assert(reqsv.skip(n as int) =~= Seq::<Seq<char>>::empty());
            assert(closure_reqs(goals, reqsv.skip(n as int), pathv) == Ok::<
                Seq<Seq<char>>,
                GoalErrShape,
            >(Seq::empty()));
        }
        out.append(&mut acc);
        proof {
            match closure_reqs(goals, reqsv, pathv) {
                Ok(tail) => {
                    assert(out.deep_view() =~= self@.links + tail);
                },
                Err(_) => {
                    assert(false);
                },
            }
        }
        Ok(out)
    }

    /// Flatten this goal against a link-set and goal table: collect the
    /// closure of link names, deduplicate them, and look each one up (see
    /// `to_links_model`).
    pub fn to_links(&self, all_links: &Vec<Link>, all_goals: &GoalMap) -> (r: Result<
        Vec<Link>,
        GoalError,
    >)
        requires
            all_goals.wf(),
            forall|i: int| 0 <= i < all_links@.len() ==> (#[trigger] all_links@[i]).inv(),
        ensures
            match r {
                Ok(ls) => to_links_model(self@, all_links.deep_view(), all_goals@) == Ok::<
                    Seq<LinkShape>,
                    GoalErrShape,
                >(ls.deep_view()) && (forall|i: int|
                    0 <= i < ls@.len() ==> (#[trigger] ls@[i]).inv()),
                Err(e) => to_links_model(self@, all_links.deep_view(), all_goals@) == Err::<
                    Seq<LinkShape>,
                    GoalErrShape,
                >(e@),
            },
    {
        proof {
            lemma_assoc_map(all_goals.entries@);
        }
        let empty_path: Vec<String> = Vec::new();
        proof {
            assert(empty_path.deep_view() =~= Seq::<Seq<char>>::empty());
            assert(path_wf(all_goals@, empty_path.deep_view()));
        }
        let names = match self.closure_names_exec(all_goals, &empty_path) {
            Ok(ns) => ns,
            Err(e) => {
                return Err(e);
            },
        };
        let deduped = dedup_exec(&names);
        let ghost dv = deduped.deep_view();
        let ghost lv = all_links.deep_view();
        let mut out: Vec<Link> = Vec::new();
        let n = deduped.len();
        let mut i: usize = 0;
        proof {
            assert(dv.skip(0) =~= dv);
            assert(out.deep_view() =~= Seq::<LinkShape>::empty());
            match links_for(dv, lv) {
                Ok(rest) => {
                    assert(Seq::<LinkShape>::empty() + rest =~= rest);
                },
                Err(_) => {},
            }
        }
        proof {
            assert(to_links_model(self@, lv, all_goals@) == links_for(dv, lv));
        }
        while i < n
            invariant
                n == deduped@.len(),
                i <= n,
                dv == deduped.deep_view(),
                lv == all_links.deep_view(),
                to_links_model(self@, lv, all_goals@) == links_for(dv, lv),
                forall|j: int| 0 <= j < all_links@.len() ==> (#[trigger] all_links@[j]).inv(),
                forall|j: int| 0 <= j < out@.len() ==> (#[trigger] out@[j]).inv(),
                match links_for(dv.skip(i as int), lv) {
                    Ok(rest) => links_for(dv, lv) == Ok::<Seq<LinkShape>, GoalErrShape>(
                        out.deep_view() + rest,
                    ),
                    Err(e) => links_for(dv, lv) == Err::<Seq<LinkShape>, GoalErrShape>(e),
                },
            decreases n - i,
        {
            let ghost tail = dv.skip(i as int);
            proof {
                assert(tail.len() == n - i);
                assert(tail[0] == dv[i as int]);
                assert(tail.drop_first() =~= dv.skip(i + 1));
                assert(dv[i as int] == deduped@[i as int]@);
            }
            match find_link_last_exec(all_links, &deduped[i]) {
                None => {
                    proof {
                        assert(links_for(tail, lv) == Err::<Seq<LinkShape>, GoalErrShape>(
                            GoalErrShape::LinkNotFound(dv[i as int]),
                        ));
                        assert(links_for(dv, lv) == Err::<Seq<LinkShape>, GoalErrShape>(
                            GoalErrShape::LinkNotFound(dv[i as int]),
                        ));
                    }
                    return Err(GoalError::LinkNotFound(deduped[i].clone()));
                },
                Some(l) => {
                    let ghost out_old = out.deep_view();
                    out.push(l.duplicate());
                    proof {
                        assert(out.deep_view() =~= out_old.push(l@));
                        match links_for(dv.skip(i + 1), lv) {
                            Ok(rest2) => {
                                assert(links_for(tail, lv) == Ok::<Seq<LinkShape>, GoalErrShape>(
                                    seq![l@] + rest2,
                                ));
                                assert(out_old + (seq![l@] + rest2) =~= out_old.push(l@) + rest2);
                            },
                            Err(_) => {},
                        }
                    }
                },
            }
            i = i + 1;
        }
        proof {
            assert(dv.skip(n as int) =~= Seq::<Seq<char>>::empty());
            assert(links_for(dv.skip(n as int), lv) == Ok::<Seq<LinkShape>, GoalErrShape>(
                Seq::empty(),
            ));
            match links_for(dv, lv) {
                Ok(rest) => {
                    assert(out.deep_view() + Seq::<LinkShape>::empty() =~= out.deep_view());
                },
                Err(_) => {
                    assert(false);
                },
            }
        }
        Ok(out)
    }
}

impl Goal {
    /// Flatten this goal against a whole project: its goal table (an error
    /// when the project has none) and its link-set.
    pub fn get_links(&self, project: &crate::config::ProjectConfig) -> (r: Result<
        Vec<Link>,
        GoalError,
    >)
        requires
            project.wf(),
        ensures
            match project.goals {
                None => (match r {
                    Err(e) => e@ == GoalErrShape::NoGoals,
                    Ok(_) => false,
                }),
                Some(gm) => (match r {
                    Ok(ls) => to_links_model(self@, project.links.deep_view(), gm@) == Ok::<
                        Seq<LinkShape>,
                        GoalErrShape,
                    >(ls.deep_view()) && (forall|i: int|
                        0 <= i < ls@.len() ==> (#[trigger] ls@[i]).inv()),
                    Err(e) => to_links_model(self@, project.links.deep_view(), gm@) == Err::<
                        Seq<LinkShape>,
                        GoalErrShape,
                    >(e@),
                }),
            },
    {
        match &project.goals {
            None => Err(GoalError::NoGoals),
            Some(gm) => self.to_links(&project.links, gm),
        }
    }
}

/// The deduplicated copy of `names`: the first occurrence of each name keeps
/// its place, later repetitions are dropped.
fn dedup_exec(names: &Vec<String>) -> (r: Vec<String>)
    ensures
        r.deep_view() == dedup_names(names.deep_view()),
{
    let ghost nv = names.deep_view();
    let mut out: Vec<String> = Vec::new();
    let n = names.len();
    let mut i: usize = 0;
    proof {
        assert(nv.take(0) =~= Seq::<Seq<char>>::empty());
        assert(out.deep_view() =~= Seq::<Seq<char>>::empty());
    }
    while i < n
        invariant
            n == names@.len(),
            i <= n,
            nv == names.deep_view(),
            out.deep_view() == dedup_names(nv.take(i as int)),
        decreases n - i,
    {
        proof {
            assert(nv.take(i + 1).drop_last() =~= nv.take(i as int));
            assert(nv.take(i + 1).last() == nv[i as int]);
            assert(nv[i as int] == names@[i as int]@);
        }
        let seen = str_list_contains(&out, &names[i]);
        proof {
            let prev = dedup_names(nv.take(i as int));
            if seen {
                let j = choose|j: int| 0 <= j < out@.len() && #[trigger] out@[j]@ == names@[
                    i as int
                ]@;
                assert(out.deep_view()[j] == nv[i as int]);
                assert(prev.contains(nv[i as int]));
            } else {
                if prev.contains(nv[i as int]) {
                    let j = choose|j: int| 0 <= j < prev.len() && prev[j] == nv[i as int];
                    assert(out@[j]@ == names@[i as int]@);
                }
            }
        }
        if !seen {
            let ghost out_old = out.deep_view();
            out.push(names[i].clone());
            proof {
                assert(out.deep_view() =~= out_old.push(nv[i as int]));
            }
        }
        i = i + 1;
    }
    proof {
        assert(nv.take(n as int) =~= nv);
    }
    out
}

/// The last link of the given name in the link-set, if any.
fn find_link_last_exec<'a>(links: &'a Vec<Link>, name: &String) -> (r: Option<&'a Link>)
    requires
        forall|i: int| 0 <= i < links@.len() ==> (#[trigger] links@[i]).inv(),
    ensures
        match r {
            Some(l) => find_link_last(links.deep_view(), name@) == Some(l@) && l.inv(),
            None => find_link_last(links.deep_view(), name@) is None,
        },
{
    let ghost lv = links.deep_view();
    let n = links.len();
    let mut i: usize = n;
    proof {
        assert(lv.take(n as int) =~= lv);
    }
    while i > 0
        invariant
            n == links@.len(),
            i <= n,
            lv == links.deep_view(),
            forall|j: int| 0 <= j < links@.len() ==> (#[trigger] links@[j]).inv(),
            find_link_last(lv, name@) == find_link_last(lv.take(i as int), name@),
        decreases i,
    {
        proof {
            assert(lv.take(i as int).last() == lv[i - 1]);
            assert(lv.take(i as int).drop_last() =~= lv.take(i - 1));
            assert(lv[i - 1] == links@[i - 1]@);
        }
        if links[i - 1].name == *name {
            return Some(&links[i - 1]);
        }
        i = i - 1;
    }
    proof {
        assert(lv.take(0) =~= Seq::<LinkShape>::empty());
    }
    None
}

/// The first link of the given name in the link-set, if any.
pub fn find_link_exec<'a>(links: &'a Vec<Link>, name: &String) -> (r: Option<&'a Link>)
    requires
        forall|i: int| 0 <= i < links@.len() ==> (#[trigger] links@[i]).inv(),
    ensures
        match r {
            Some(l) => find_link(links.deep_view(), name@) == Some(l@) && l.inv(),
            None => find_link(links.deep_view(), name@) is None,
        },
{
    let ghost lv = links.deep_view();
    let n = links.len();
    let mut i: usize = 0;
    proof {
        assert(lv.skip(0) =~= lv);
    }
    while i < n
        invariant
            n == links@.len(),
            i <= n,
            lv == links.deep_view(),
            forall|j: int| 0 <= j < links@.len() ==> (#[trigger] links@[j]).inv(),
            find_link(lv, name@) == find_link(lv.skip(i as int), name@),
        decreases n - i,
    {
        proof {
            assert(lv.skip(i as int).len() == n - i);
            assert(lv.skip(i as int)[0] == lv[i as int]);
            assert(lv.skip(i as int).drop_first() =~= lv.skip(i + 1));
            assert(lv[i as int] == links@[i as int]@);
        }
        if links[i].name == *name {
            return Some(&links[i]);
        }
        i = i + 1;
    }
    proof {
        assert(lv.skip(n as int) =~= Seq::<LinkShape>::empty());
    }
    None
}

} // verus!
