//! The two persisted aggregates: a project's configuration (its link-set and
//! goal table) and the system-wide registry of projects. Reading and writing
//! them is the surrounding tool's business; here live the values and the
//! operations on them.

use crate::goals::GoalMap;
use crate::link::Link;
use crate::strmap::AssocMap;
use crate::System;
use vstd::prelude::*;

verus! {

/// One project: its name, a name-derived opaque id, the optional default
/// system, the systems it knows, its links and its goals.
#[derive(Debug)]
pub struct ProjectConfig {
    pub name: String,
    pub id: String,
    pub default: Option<System>,
    pub systems: Vec<System>,
    pub links: Vec<Link>,
    pub goals: Option<GoalMap>,
}

impl ProjectConfig {
    /// Every link's table is well-formed and the goal table, when present,
    /// has distinct names.
    pub open spec fn wf(self) -> bool {
        &&& forall|i: int| 0 <= i < self.links@.len() ==> (#[trigger] self.links@[i]).inv()
        &&& match self.goals {
            Some(gm) => gm.wf(),
            None => true,
        }
    }

    /// A fresh project: the id is derived from the name (see `name_hash`),
    /// everything else starts empty.
    pub fn new(name: String) -> (r: ProjectConfig)
        ensures
            r.name == name,
            r.id@ == dec_string(name_hash(name@) as int),
            r.default is None,
            r.systems@.len() == 0,
            r.links@.len() == 0,
            r.goals is None,
            r.wf(),
    {
        let id = dec_string_exec(name_hash_exec(name.as_str()));
        ProjectConfig { name, id, default: None, systems: Vec::new(), links: Vec::new(), goals: None }
    }

    /// Strip the project path off the front of `path` (see
    /// `strip_prefix_model`); `None` when `path` does not lie under it.
    pub fn remove_start(proj_path: &str, path: &str) -> (r: Option<String>)
        ensures
            match r {
                Some(s) => strip_prefix_model(proj_path@, path@) == Some(s@),
                None => strip_prefix_model(proj_path@, path@) is None,
            },
    {
        let bn = proj_path.unicode_len();
        let pn = path.unicode_len();
        if bn == 0 {
            return Some(path.to_owned());
        }
        if pn < bn {
            return None;
        }
        let prefix = path.substring_char(0, bn).to_owned();
        let base = proj_path.to_owned();
        if prefix != base {
            proof {
                if pn == bn {
                    assert(path@.subrange(0, bn as int) =~= path@);
                }
            }
            return None;
        }
        if pn == bn {
            proof {
                assert(path@.subrange(0, pn as int) =~= path@);
            }
            return Some(String::new());
        }
        if proj_path.get_char(bn - 1) == '/' {
            return Some(path.substring_char(bn, pn).to_owned());
        }
        if path.get_char(bn) == '/' {
            return Some(path.substring_char(bn + 1, pn).to_owned());
        }
        None
    }

    /// The first link holding `file` among its source paths, by index.
    pub fn get_link_for_file(&self, file: &str) -> (r: Option<usize>)
        requires
            self.wf(),
        ensures
            match r {
                Some(i) => i < self.links@.len() && self.links@[i as int]@.src.has_path(file@) && (
                forall|j: int| 0 <= j < i ==> !(#[trigger] self.links@[j])@.src.has_path(file@)),
                None => forall|j: int|
                    0 <= j < self.links@.len() ==> !(#[trigger] self.links@[j])@.src.has_path(
                        file@,
                    ),
            },
    {
        let n = self.links.len();
        let mut i: usize = 0;
        while i < n
            invariant
                self.wf(),
                n == self.links@.len(),
                i <= n,
                forall|j: int| 0 <= j < i ==> !(#[trigger] self.links@[j])@.src.has_path(file@),
            decreases n - i,
        {
            if self.links[i].src.contains_path(file) {
                return Some(i);
            }
            i = i + 1;
        }
        None
    }
}

/// Whether `path` lies under `base` textually: equal to it, or extending it
/// at a separator; the stripped remainder keeps no leading separator.
pub open spec fn strip_prefix_model(base: Seq<char>, path: Seq<char>) -> Option<Seq<char>> {
    if base.len() == 0 {
        Some(path)
    } else if path.len() == base.len() && path == base {
        Some(Seq::empty())
    } else if path.len() > base.len() && path.subrange(0, base.len() as int) == base {
        if base.last() == '/' {
            Some(path.skip(base.len() as int))
        } else if path[base.len() as int] == '/' {
            Some(path.skip(base.len() as int + 1))
        } else {
            None
        }
    } else {
        None
    }
}

/// FNV-1a over the name's characters, the 64-bit variant: the id of a
/// project is this hash of its name, written in decimal.
pub open spec fn name_hash(s: Seq<char>) -> u64
    decreases s.len(),
{
    if s.len() == 0 {
        0xcbf2_9ce4_8422_2325u64
    } else {
        vstd::wrapping::u64_specs::wrapping_mul(
            name_hash(s.drop_last()) ^ (s.last() as u64),
            0x100_0000_01b3u64,
        )
    }
}

fn name_hash_exec(name: &str) -> (r: u64)
    ensures
        r == name_hash(name@),
{
    let n = name.unicode_len();
    let mut h: u64 = 0xcbf2_9ce4_8422_2325u64;
    let mut i: usize = 0;
    proof {
        assert(name@.take(0) =~= Seq::<char>::empty());
    }
    while i < n
        invariant
            n == name@.len(),
            i <= n,
            h == name_hash(name@.take(i as int)),
        decreases n - i,
    {
        proof {
            assert(name@.take(i + 1).drop_last() =~= name@.take(i as int));
            assert(name@.take(i + 1).last() == name@[i as int]);
        }
        let c = name.get_char(i);
        h = (h ^ (c as u64)).wrapping_mul(0x100_0000_01b3u64);
        i = i + 1;
    }
    proof {
        assert(name@.take(n as int) =~= name@);
    }
    h
}

/// The decimal digit for a value below ten.
pub open spec fn dec_digit(d: int) -> char {
    if d == 0 {
        '0'
    } else if d == 1 {
        '1'
    } else if d == 2 {
        '2'
    } else if d == 3 {
        '3'
    } else if d == 4 {
        '4'
    } else if d == 5 {
        '5'
    } else if d == 6 {
        '6'
    } else if d == 7 {
        '7'
    } else if d == 8 {
        '8'
    } else {
        '9'
    }
}

/// A nonnegative number written in decimal, without leading zeroes.
pub open spec fn dec_string(n: int) -> Seq<char>
    decreases n,
{
    if n < 0 {
        Seq::empty()
    } else if n < 10 {
        seq![dec_digit(n)]
    } else {
        dec_string(n / 10).push(dec_digit(n % 10))
    }
}

fn digit_str(d: u64) -> (r: &'static str)
    requires
        d < 10,
    ensures
        r@ == seq![dec_digit(d as int)],
{
    proof {
        reveal_strlit("0");
        reveal_strlit("1");
        reveal_strlit("2");
        reveal_strlit("3");
        reveal_strlit("4");
        reveal_strlit("5");
        reveal_strlit("6");
        reveal_strlit("7");
        reveal_strlit("8");
        reveal_strlit("9");
    }
    let r = if d == 0 {
        "0"
    } else if d == 1 {
        "1"
    } else if d == 2 {
        "2"
    } else if d == 3 {
        "3"
    } else if d == 4 {
        "4"
    } else if d == 5 {
        "5"
    } else if d == 6 {
        "6"
    } else if d == 7 {
        "7"
    } else if d == 8 {
        "8"
    } else {
        "9"
    };
    proof {
        assert(r@ =~= seq![dec_digit(d as int)]);
    }
    r
}

fn dec_string_exec(n: u64) -> (r: String)
    ensures
        r@ == dec_string(n as int),
    decreases n,
{
    if n < 10 {
        digit_str(n).to_owned()
    } else {
        let mut s = dec_string_exec(n / 10);
        s.append(digit_str(n % 10));
        proof {
            assert(dec_string((n / 10) as int).push(dec_digit((n % 10) as int)) =~= dec_string(
                (n / 10) as int,
            ) + seq![dec_digit((n % 10) as int)]);
        }
        s
    }
}

/// A registered project in the system registry: an optional per-project
/// system override and the project's location.
#[derive(Debug)]
pub struct ProjectOutput {
    pub system: Option<System>,
    pub path: String,
}

pub struct ProjectOutputShape {
    pub system: Option<Seq<char>>,
    pub path: Seq<char>,
}

impl View for ProjectOutput {
    type V = ProjectOutputShape;

    open spec fn view(&self) -> ProjectOutputShape {
        ProjectOutputShape {
            system: match self.system {
                Some(s) => Some(s@),
                None => None,
            },
            path: self.path@,
        }
    }
}

/// The system-wide registry: an optional default project location and the
/// registered projects by name.
#[derive(Debug)]
pub struct SystemConfig {
    pub default: Option<String>,
    pub projects: AssocMap<ProjectOutput>,
}

impl SystemConfig {
    pub open spec fn wf(self) -> bool {
        self.projects.wf()
    }

    pub fn new() -> (r: SystemConfig)
        ensures
            r.default is None,
            r.projects@ == Map::<Seq<char>, ProjectOutputShape>::empty(),
            r.wf(),
    {
        SystemConfig { default: None, projects: AssocMap::new() }
    }

    /// Register (or re-register) a project under its name, with no system
    /// override.
    pub fn add_project(&mut self, name: String, path: String)
        requires
            old(self).wf(),
        ensures
            final(self).wf(),
            final(self).projects@ == old(self).projects@.insert(
                name@,
                (ProjectOutputShape { system: None, path: path@ }),
            ),
            final(self).default == old(self).default,
    {
        self.projects.upsert(name, ProjectOutput { system: None, path });
    }
}

} // verus!
