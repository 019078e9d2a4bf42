//! The link addressing model: a `Link` pairs a destination path with a
//! `SourceFile`, the union of possible source locations keyed by system.
//! `SourceFile` is kept in the minimal shape consistent with its content:
//! a single system-independent path, a single path tied to one system, or a
//! table of system-tagged paths, optionally with a default path or with one
//! of the systems designated as the default.

use crate::strmap::{assoc_map, lemma_assoc_map, str_list_contains, str_set, val_filter,
    val_set_filter, AssocMap};
use crate::util::{opt_map_view, parse_vars, subst, varmaps_wf, ParsingVarError, VarMap};
use crate::System;
use vstd::prelude::*;

verus! {

/// The system-to-path table inside a `SourceFile`; keys are system names.
pub type SysMap = AssocMap<String>;

/// A path that may hold `$VAR` / `${VAR}` references; it stays unresolved
/// text until substitution is requested. Equality is on the raw text.
#[derive(Debug, Clone)]
pub struct VariablePath(pub String);

impl View for VariablePath {
    type V = Seq<char>;

    open spec fn view(&self) -> Seq<char> {
        self.0@
    }
}

impl DeepView for VariablePath {
    type V = Seq<char>;

    open spec fn deep_view(&self) -> Seq<char> {
        self.0@
    }
}

impl VariablePath {
    /// Any string is path text; nothing is checked at creation.
    pub fn new(s: String) -> (r: VariablePath)
        ensures
            r@ == s@,
    {
        VariablePath(s)
    }

    /// Realise the path: substitute its variable references from the given
    /// tables (see `util::subst`); the environment table is enabled, as when
    /// the surrounding tool resolves a destination.
    pub fn to_path_buf(&self, extra_variables: Option<&VarMap>, env: &VarMap) -> (r: Result<
        String,
        ParsingVarError,
    >)
        requires
            varmaps_wf(extra_variables, env),
        ensures
            match r {
                Ok(out) => subst(self@, opt_map_view(extra_variables), true, env@) == Ok::<
                    Seq<char>,
                    Seq<char>,
                >(out@),
                Err(e) => match e {
                    ParsingVarError::NotFound(name) => subst(
                        self@,
                        opt_map_view(extra_variables),
                        true,
                        env@,
                    ) == Err::<Seq<char>, Seq<char>>(name@),
                },
            },
    {
        parse_vars(true, extra_variables, env, self.0.as_str())
    }
}

/// One logical link's possible source locations.
#[derive(Debug)]
pub enum SourceFile {
    /// A single path, usable whatever the active system.
    SourceWithNoSystem(String),
    /// A single path, valid only when the active system matches exactly.
    SourceWithSystem(System, String),
    /// A path used when no system applies, plus per-system overrides.
    DynamicWithDefaultPath(String, SysMap),
    /// Per-system paths; the designated system's entry doubles as the
    /// fallback for unmapped active systems.
    DynamicWithDefaultSystem(System, SysMap),
    /// Per-system paths with no default of any kind.
    Dynamic(SysMap),
}

/// The abstract value of a `SourceFile`: the same five shapes over
/// mathematical strings and maps.
pub enum Shape {
    NoSystem { path: Seq<char> },
    WithSystem { system: Seq<char>, path: Seq<char> },
    DefaultPath { default: Seq<char>, map: Map<Seq<char>, Seq<char>> },
    DefaultSystem { system: Seq<char>, map: Map<Seq<char>, Seq<char>> },
    Plain { map: Map<Seq<char>, Seq<char>> },
}

impl View for SourceFile {
    type V = Shape;

    open spec fn view(&self) -> Shape {
        match self {
            SourceFile::SourceWithNoSystem(p) => Shape::NoSystem { path: p@ },
            SourceFile::SourceWithSystem(s, p) => Shape::WithSystem { system: s@, path: p@ },
            SourceFile::DynamicWithDefaultPath(d, m) => Shape::DefaultPath {
                default: d@,
                map: m@,
            },
            SourceFile::DynamicWithDefaultSystem(s, m) => Shape::DefaultSystem {
                system: s@,
                map: m@,
            },
            SourceFile::Dynamic(m) => Shape::Plain { map: m@ },
        }
    }
}

/// One managed file: a display name, the destination the link lives at, and
/// the union of source locations. Names need not be unique in a link-set;
/// callers check.
#[derive(Debug)]
pub struct Link {
    pub name: String,
    pub destination: VariablePath,
    pub src: SourceFile,
}

pub struct LinkShape {
    pub name: Seq<char>,
    pub destination: Seq<char>,
    pub src: Shape,
}

impl View for Link {
    type V = LinkShape;

    open spec fn view(&self) -> LinkShape {
        LinkShape { name: self.name@, destination: self.destination@, src: self.src@ }
    }
}

impl DeepView for Link {
    type V = LinkShape;

    open spec fn deep_view(&self) -> LinkShape {
        self@
    }
}

/// A copy of a string list with the same views.
pub fn clone_string_vec(v: &Vec<String>) -> (r: Vec<String>)
    ensures
        r.deep_view() == v.deep_view(),
        r@.len() == v@.len(),
        forall|i: int| 0 <= i < v@.len() ==> r@[i]@ == #[trigger] v@[i]@,
{
    let mut out: Vec<String> = Vec::new();
    let n = v.len();
    let mut i: usize = 0;
    while i < n
        invariant
            n == v@.len(),
            i <= n,
            out@.len() == i,
            forall|j: int| 0 <= j < i ==> out@[j]@ == #[trigger] v@[j]@,
        decreases n - i,
    {
        out.push(v[i].clone());
        i = i + 1;
    }
    proof {
        assert(out.deep_view() =~= v.deep_view());
    }
    out
}

impl Link {
    pub fn new(name: String, src: VariablePath, destination: SourceFile) -> (r: Link)
        ensures
            r.name == name,
            r.destination == src,
            r.src == destination,
    {
        Link { name, destination: src, src: destination }
    }

    pub open spec fn inv(self) -> bool {
        self.src.inv()
    }

    /// A copy with the same value (a derived clone carries no contract).
    pub fn duplicate(&self) -> (r: Link)
        ensures
            r@ == self@,
            self.inv() ==> r.inv(),
    {
        Link {
            name: self.name.clone(),
            destination: VariablePath(self.destination.0.clone()),
            src: self.src.duplicate(),
        }
    }
}

pub open spec fn opt_sys_view(s: Option<System>) -> Option<Seq<char>> {
    match s {
        Some(x) => Some(x@),
        None => None,
    }
}

impl Shape {
    /// The system-tagged entries, as a map from system name to path.
    pub open spec fn sys_map(self) -> Map<Seq<char>, Seq<char>> {
        match self {
            Shape::NoSystem { .. } => Map::empty(),
            Shape::WithSystem { system, path } => Map::empty().insert(system, path),
            Shape::DefaultPath { map, .. } => map,
            Shape::DefaultSystem { map, .. } => map,
            Shape::Plain { map } => map,
        }
    }

    /// The system-independent entry, if the shape carries one.
    pub open spec fn fallback(self) -> Option<Seq<char>> {
        match self {
            Shape::NoSystem { path } => Some(path),
            Shape::DefaultPath { default, .. } => Some(default),
            _ => None,
        }
    }

    /// The system whose entry doubles as the default, if one is designated.
    pub open spec fn default_system(self) -> Option<Seq<char>> {
        match self {
            Shape::DefaultSystem { system, .. } => Some(system),
            _ => None,
        }
    }

    /// Well-formedness: table shapes are only used where a scalar shape
    /// cannot represent the content, and a designated default system is one
    /// of the table's keys.
    pub open spec fn wf(self) -> bool {
        match self {
            Shape::NoSystem { .. } => true,
            Shape::WithSystem { .. } => true,
            Shape::DefaultPath { map, .. } => map.dom().finite() && map.len() >= 1,
            Shape::DefaultSystem { system, map } => map.dom().finite() && map.dom().contains(
                system,
            ),
            Shape::Plain { map } => map.dom().finite() && map.len() >= 1,
        }
    }

    /// The concrete path applicable under the given active system: the most
    /// system-specific entry that exists, then the designated default
    /// system's entry, then the system-independent path, else nothing.
    pub open spec fn resolve_at(self, sys: Option<Seq<char>>) -> Option<Seq<char>> {
        match sys {
            None => self.fallback(),
            Some(s) => if self.sys_map().dom().contains(s) {
                Some(self.sys_map()[s])
            } else {
                match self.default_system() {
                    Some(d) => if self.sys_map().dom().contains(d) {
                        Some(self.sys_map()[d])
                    } else {
                        self.fallback()
                    },
                    None => self.fallback(),
                }
            },
        }
    }

    /// Whether some entry (system-tagged or not) carries the path `p`.
    pub open spec fn has_path(self, p: Seq<char>) -> bool {
        self.fallback() == Some(p) || exists|k: Seq<char>|
            self.sys_map().dom().contains(k) && #[trigger] self.sys_map()[k] == p
    }

    /// How many entries the shape holds in all.
    pub open spec fn total_entries(self) -> int {
        self.sys_map().len() + if self.fallback() is Some {
            1int
        } else {
            0int
        }
    }

    /// The shape after a successful insertion of the pair (`s`, `p`):
    /// a scalar shape is promoted to the matching table shape, a table
    /// simply gains a key.
    pub open spec fn insert_model(self, s: Seq<char>, p: Seq<char>) -> Shape {
        match self {
            Shape::NoSystem { path } => Shape::DefaultPath {
                default: path,
                map: Map::empty().insert(s, p),
            },
            Shape::WithSystem { system, path } => Shape::DefaultSystem {
                system,
                map: Map::empty().insert(system, path).insert(s, p),
            },
            Shape::DefaultPath { default, map } => Shape::DefaultPath {
                default,
                map: map.insert(s, p),
            },
            Shape::DefaultSystem { system, map } => Shape::DefaultSystem {
                system,
                map: map.insert(s, p),
            },
            Shape::Plain { map } => Shape::Plain { map: map.insert(s, p) },
        }
    }

    /// A table left as a plain table, or collapsed to the scalar shape when
    /// a single entry remains, or nothing when none does.
    pub open spec fn plain_or_scalar(m2: Map<Seq<char>, Seq<char>>) -> Option<Shape> {
        if m2.len() == 0 {
            None
        } else if m2.len() == 1 {
            let k = m2.dom().choose();
            Some(Shape::WithSystem { system: k, path: m2[k] })
        } else {
            Some(Shape::Plain { map: m2 })
        }
    }

    /// The shape left after removing every entry whose path is `t`, or
    /// nothing when no entry remains. A table whose default entry is the one
    /// removed degrades to a plain table, never to a scalar shape; otherwise
    /// a table left with one undesignated entry collapses to the scalar
    /// shape, and a table whose whole content is its designated default
    /// keeps that designation.
    pub open spec fn remove_model(self, t: Seq<char>) -> Option<Shape> {
        match self {
            Shape::NoSystem { path } => if path == t {
                None
            } else {
                Some(self)
            },
            Shape::WithSystem { system, path } => if path == t {
                None
            } else {
                Some(self)
            },
            Shape::Plain { map } => Shape::plain_or_scalar(val_filter(map, t)),
            Shape::DefaultPath { default, map } => {
                let m2 = val_filter(map, t);
                if default == t {
                    if m2.len() == 0 {
                        None
                    } else {
                        Some(Shape::Plain { map: m2 })
                    }
                } else {
                    if m2.len() == 0 {
                        Some(Shape::NoSystem { path: default })
                    } else {
                        Some(Shape::DefaultPath { default, map: m2 })
                    }
                }
            },
            Shape::DefaultSystem { system, map } => {
                let m2 = val_filter(map, t);
                if map.dom().contains(system) && map[system] == t {
                    if m2.len() == 0 {
                        None
                    } else {
                        Some(Shape::Plain { map: m2 })
                    }
                } else {
                    Some(Shape::DefaultSystem { system, map: m2 })
                }
            },
        }
    }
}

/// Reconstitute the minimal source-file shape from a flattened entry list
/// (see `convert_model`); the inverse direction of `SourceFile::entries`.
pub fn convert_iter_to_source(entries: Vec<SourceEntry>) -> (r: Option<SourceFile>)
    requires
        entries_wf(entries@),
    ensures
        match r {
            Some(f) => f.inv() && convert_model(entries@) == Some(f@),
            None => convert_model(entries@) is None,
        },
{
    let n = entries.len();
    if n == 0 {
        return None;
    }
    if n == 1 {
        let mut entries = entries;
        let e = match entries.pop() {
            Some(e) => e,
            None => {
                proof {
                    assert(false);
                }
                return None;
            },
        };
        let (_, sys, path) = e;
        return match sys {
            None => Some(SourceFile::SourceWithNoSystem(path)),
            Some(s) => Some(SourceFile::SourceWithSystem(s, path)),
        };
    }
    let mut m = SysMap::new();
    let mut fallback: Option<String> = None;
    let mut flag: Option<System> = None;
    let mut i: usize = 0;
    while i < n
        invariant
            entries_wf(entries@),
            n == entries@.len(),
            i <= n,
            m.wf(),
            m@ == entries_map(entries@.take(i as int)),
            m@.dom().finite(),
            opt_str_view(fallback) == entries_fallback(entries@.take(i as int)),
            (match flag {
                Some(f) => Some(f@),
                None => None::<Seq<char>>,
            }) == entries_flag(entries@.take(i as int)),
            m@.len() + (if fallback is Some {
                1int
            } else {
                0int
            }) == i,
            (fallback is Some) <==> (exists|j: int|
                0 <= j < i && (#[trigger] entries@[j]).1 is None),
            forall|k: Seq<char>|
                m@.dom().contains(k) ==> exists|j: int|
                    0 <= j < i && entry_sys(#[trigger] entries@[j]) == Some(k),
            (match flag {
                Some(f) => m@.dom().contains(f@),
                None => true,
            }),
        decreases n - i,
    {
        proof {
            assert(entries@.take(i + 1).drop_last() =~= entries@.take(i as int));
            assert(entries@.take(i + 1).last() == entries@[i as int]);
        }
        let e_flag = entries[i].0;
        match &entries[i].1 {
            Some(s) => {
                proof {
                    if m@.dom().contains(s@) {
                        let j = choose|j: int|
                            0 <= j < i && entry_sys(#[trigger] entries@[j]) == Some(s@);
                        assert(entry_sys(entries@[j]) == entry_sys(entries@[i as int]));
                        assert(false);
                    }
                }
                m.insert_fresh(s.0.clone(), entries[i].2.clone());
            },
            None => {
                proof {
                    if fallback is Some {
                        let j = choose|j: int|
                            0 <= j < i && (#[trigger] entries@[j]).1 is None;
                        assert(entry_sys(entries@[j]) == entry_sys(entries@[i as int]));
                        assert(false);
                    }
                }
                fallback = Some(entries[i].2.clone());
            },
        }
        if e_flag {
            match &entries[i].1 {
                Some(s) => {
                    flag = Some(System(s.0.clone()));
                },
                None => {
                    proof {
                        assert(false);
                    }
                },
            }
        }
        i = i + 1;
    }
    proof {
        assert(entries@.take(n as int) =~= entries@);
    }
    match fallback {
        Some(d) => Some(SourceFile::DynamicWithDefaultPath(d, m)),
        None => match flag {
            Some(f) => Some(SourceFile::DynamicWithDefaultSystem(f, m)),
            None => Some(SourceFile::Dynamic(m)),
        },
    }
}

/// Whether removing path `t` takes away the shape's default entry (its
/// system-independent path, or its designated default system's entry).
pub open spec fn default_entry_removed(s: Shape, t: Seq<char>) -> bool {
    match s {
        Shape::DefaultPath { default, .. } => default == t,
        Shape::DefaultSystem { system, map } => map.dom().contains(system) && map[system] == t,
        _ => false,
    }
}

/// A finite set of one element holds nothing else.
proof fn lemma_singleton_elem(s: Set<Seq<char>>, a: Seq<char>, b: Seq<char>)
    requires
        s.finite(),
        s.len() == 1,
        s.contains(a),
        s.contains(b),
    ensures
        a == b,
{
    if a != b {
        assert(s.remove(a).contains(b));
        assert(s.remove(a).len() == 0);
        s.remove(a).lemma_len0_is_empty();
        assert(false);
    }
}

/// A restriction that drops nothing: filtering out value `p` after inserting
/// the only pair carrying `p` gives the original table back.
proof fn lemma_val_filter_untouched(map: Map<Seq<char>, Seq<char>>, sys: Seq<char>, p: Seq<char>)
    requires
        !map.dom().contains(sys),
        forall|k: Seq<char>| map.dom().contains(k) ==> #[trigger] map[k] != p,
    ensures
        val_filter(map.insert(sys, p), p) == map,
{
    assert(val_filter(map.insert(sys, p), p) =~= map);
}

/// Resolution is deterministic: it is a pure function of the source-file
/// value and the active system, so equal inputs resolve to equal paths.
pub proof fn lemma_resolve_deterministic(
    a: Shape,
    b: Shape,
    sys_a: Option<Seq<char>>,
    sys_b: Option<Seq<char>>,
)
    requires
        a == b,
        sys_a == sys_b,
    ensures
        a.resolve_at(sys_a) == b.resolve_at(sys_b),
{
}

/// Inserting a pair for a system that has no entry yet, then removing that
/// pair's path, yields a source file that resolves exactly as the original
/// did, for every active system — provided the original is not the
/// single-system scalar shape (whose promotion to a default-system table is
/// deliberately lossy) and the inserted path is fresh. For a plain table the
/// inserted system resolves to nothing afterwards, as it did before.
pub proof fn lemma_insert_remove_round_trip(s: Shape, sys: Seq<char>, p: Seq<char>)
    requires
        s.wf(),
        !(s is WithSystem),
        !s.sys_map().dom().contains(sys),
        !s.has_path(p),
    ensures
        match s.insert_model(sys, p).remove_model(p) {
            Some(r) => forall|q: Option<Seq<char>>| #[trigger]
                r.resolve_at(q) == s.resolve_at(q),
            None => false,
        },
        s is Plain ==> s.resolve_at(Some(sys)) is None,
{
    let ins = s.insert_model(sys, p);
    match s {
        Shape::NoSystem { path } => {
            assert(path != p);
            let m2 = val_filter(Map::<Seq<char>, Seq<char>>::empty().insert(sys, p), p);
            assert(m2.dom() =~= Set::<Seq<char>>::empty());
            assert(m2.len() == 0);
            assert(ins.remove_model(p) == Some(s));
        },
        Shape::WithSystem { .. } => {
            assert(false);
        },
        Shape::DefaultPath { default, map } => {
            assert(default != p);
            assert(forall|k: Seq<char>|
                map.dom().contains(k) ==> #[trigger] map[k] != p);
            lemma_val_filter_untouched(map, sys, p);
            assert(val_filter(map.insert(sys, p), p).len() >= 1);
            assert(ins.remove_model(p) == Some(s));
        },
        Shape::DefaultSystem { system, map } => {
            assert(forall|k: Seq<char>|
                map.dom().contains(k) ==> #[trigger] map[k] != p);
            lemma_val_filter_untouched(map, sys, p);
            assert(system != sys);
            assert(map.insert(sys, p)[system] == map[system]);
            assert(map[system] != p);
            assert(ins.remove_model(p) == Some(s));
        },
        Shape::Plain { map } => {
            assert(forall|k: Seq<char>|
                map.dom().contains(k) ==> #[trigger] map[k] != p);
            lemma_val_filter_untouched(map, sys, p);
            if map.len() == 1 {
                let k = map.dom().choose();
                assert(map.dom().contains(k));
                let r = Shape::WithSystem { system: k, path: map[k] };
                assert(ins.remove_model(p) == Some(r));
                assert forall|q: Option<Seq<char>>| #[trigger] r.resolve_at(q) == s.resolve_at(
                    q,
                ) by {
                    match q {
                        None => {},
                        Some(x) => {
                            if x == k {
                                assert(r.sys_map().dom().contains(x));
                                assert(r.sys_map()[x] == map[k]);
                            } else {
                                if map.dom().contains(x) {
                                    lemma_singleton_elem(map.dom(), x, k);
                                    assert(false);
                                }
                                assert(!r.sys_map().dom().contains(x));
                            }
                        },
                    }
                }
            } else {
                assert(ins.remove_model(p) == Some(s));
            }
        },
    }
}

/// After any removal the minimal shape is re-derived: a well-formed result
/// always comes out, and one holding exactly one entry with no designated
/// default is a scalar shape — except in the flagged degradation case, where
/// the removed path was the default entry and a plain table remains.
pub proof fn lemma_remove_minimal(s: Shape, t: Seq<char>)
    requires
        s.wf(),
    ensures
        match s.remove_model(t) {
            Some(r) => r.wf() && (!default_entry_removed(s, t) && r.total_entries() == 1
                && r.default_system() is None ==> (r is NoSystem || r is WithSystem)),
            None => true,
        },
{
    match s {
        Shape::NoSystem { .. } => {},
        Shape::WithSystem { .. } => {},
        Shape::Plain { map } => {
            let m2 = val_filter(map, t);
            assert(m2.dom() <= map.dom());
            vstd::set_lib::lemma_len_subset(m2.dom(), map.dom());
            if m2.len() == 1 {
                let k = m2.dom().choose();
                assert(m2.dom().contains(k));
            }
        },
        Shape::DefaultPath { default, map } => {
            let m2 = val_filter(map, t);
            assert(m2.dom() <= map.dom());
            vstd::set_lib::lemma_len_subset(m2.dom(), map.dom());
        },
        Shape::DefaultSystem { system, map } => {
            let m2 = val_filter(map, t);
            assert(m2.dom() <= map.dom());
            vstd::set_lib::lemma_len_subset(m2.dom(), map.dom());
            if !(map.dom().contains(system) && map[system] == t) {
                assert(m2.dom().contains(system));
            }
        },
    }
}

/// One flattened entry of a source-file union: whether the entry is the
/// designated default system's, the system it is tagged with (none for the
/// system-independent path), and the path itself.
pub type SourceEntry = (bool, Option<System>, String);

pub open spec fn entry_sys(e: SourceEntry) -> Option<Seq<char>> {
    match e.1 {
        Some(s) => Some(s@),
        None => None,
    }
}

pub open spec fn opt_str_view(o: Option<String>) -> Option<Seq<char>> {
    match o {
        Some(s) => Some(s@),
        None => None,
    }
}

/// A well-formed flattening: at most one system-independent entry, at most
/// one entry per system, at most one flagged (default-system) entry, a
/// flagged entry is system-tagged, and a flagged entry excludes a
/// system-independent one — exactly what the five shapes can carry.
pub open spec fn entries_wf(es: Seq<SourceEntry>) -> bool {
    &&& forall|i: int, j: int|
        0 <= i < j < es.len() ==> entry_sys(#[trigger] es[i]) != entry_sys(#[trigger] es[j])
    &&& forall|i: int| 0 <= i < es.len() && (#[trigger] es[i]).0 ==> es[i].1 is Some
    &&& forall|i: int, j: int|
        0 <= i < j < es.len() ==> !((#[trigger] es[i]).0 && (#[trigger] es[j]).0)
    &&& forall|i: int, j: int|
        0 <= i < es.len() && 0 <= j < es.len() ==> !((#[trigger] es[i]).1 is None && (
        #[trigger] es[j]).0)
}

/// The system-tagged entries of a flattening, as a map.
pub open spec fn entries_map(es: Seq<SourceEntry>) -> Map<Seq<char>, Seq<char>>
    decreases es.len(),
{
    if es.len() == 0 {
        Map::empty()
    } else {
        let m = entries_map(es.drop_last());
        match es.last().1 {
            Some(s) => m.insert(s@, es.last().2@),
            None => m,
        }
    }
}

/// The system-independent path of a flattening, if one is listed.
pub open spec fn entries_fallback(es: Seq<SourceEntry>) -> Option<Seq<char>>
    decreases es.len(),
{
    if es.len() == 0 {
        None
    } else if es.last().1 is None {
        Some(es.last().2@)
    } else {
        entries_fallback(es.drop_last())
    }
}

/// The flagged default system of a flattening, if one is listed.
pub open spec fn entries_flag(es: Seq<SourceEntry>) -> Option<Seq<char>>
    decreases es.len(),
{
    if es.len() == 0 {
        None
    } else if es.last().0 {
        entry_sys(es.last())
    } else {
        entries_flag(es.drop_last())
    }
}

/// The minimal shape a flattening reconstitutes to: nothing for no entries,
/// a scalar shape for a single entry (dropping any default flag), and
/// otherwise the table shape matching which default the entries carry.
pub open spec fn convert_model(es: Seq<SourceEntry>) -> Option<Shape> {
    if es.len() == 0 {
        None
    } else if es.len() == 1 {
        match es[0].1 {
            None => Some(Shape::NoSystem { path: es[0].2@ }),
            Some(s) => Some(Shape::WithSystem { system: s@, path: es[0].2@ }),
        }
    } else {
        match entries_fallback(es) {
            Some(d) => Some(Shape::DefaultPath { default: d, map: entries_map(es) }),
            None => match entries_flag(es) {
                Some(f) => Some(Shape::DefaultSystem { system: f, map: entries_map(es) }),
                None => Some(Shape::Plain { map: entries_map(es) }),
            },
        }
    }
}

/// Reconstitution of a shape that lost its system-independent entry: the
/// designated default system survives only while the table keeps at least
/// two entries; a single surviving entry collapses to the scalar shape.
pub open spec fn prune_no_fallback(s: Shape, m2: Map<Seq<char>, Seq<char>>) -> Option<Shape> {
    match s.default_system() {
        Some(f) => if m2.dom().contains(f) && m2.len() >= 2 {
            Some(Shape::DefaultSystem { system: f, map: m2 })
        } else {
            Shape::plain_or_scalar(m2)
        },
        None => Shape::plain_or_scalar(m2),
    }
}

/// The shape left once every entry whose path lies in `missing` is dropped,
/// re-derived as the minimal shape from the surviving entries; `None` when
/// none survives. Unlike `remove_model`, this is a full reconstitution: a
/// single surviving entry always collapses to a scalar shape.
pub open spec fn prune_model(s: Shape, missing: Set<Seq<char>>) -> Option<Shape> {
    let m2 = val_set_filter(s.sys_map(), missing);
    match s.fallback() {
        Some(d) => if !missing.contains(d) {
            if m2.len() == 0 {
                Some(Shape::NoSystem { path: d })
            } else {
                Some(Shape::DefaultPath { default: d, map: m2 })
            }
        } else {
            prune_no_fallback(s, m2)
        },
        None => prune_no_fallback(s, m2),
    }
}

/// A configuration conflict: the system already has an entry in the
/// source-file union it was to be added to.
#[derive(Debug)]
pub struct InsertError {
    pub system: System,
    pub path: String,
}

/// A designated default system has no entry in the given table.
#[derive(Debug)]
pub struct SystemNotFound {
    pub system: System,
}

impl SourceFile {
    /// Representation invariant: the table has distinct keys and the shape
    /// is well-formed.
    pub open spec fn inv(self) -> bool {
        &&& match self {
            SourceFile::DynamicWithDefaultPath(_, m) => m.wf(),
            SourceFile::DynamicWithDefaultSystem(_, m) => m.wf(),
            SourceFile::Dynamic(m) => m.wf(),
            _ => true,
        }
        &&& self@.wf()
    }

    /// A copy with the same value (a derived clone carries no contract).
    pub fn duplicate(&self) -> (r: SourceFile)
        ensures
            r@ == self@,
            self.inv() ==> r.inv(),
    {
        match self {
            SourceFile::SourceWithNoSystem(p) => SourceFile::SourceWithNoSystem(p.clone()),
            SourceFile::SourceWithSystem(s, p) => SourceFile::SourceWithSystem(
                System(s.0.clone()),
                p.clone(),
            ),
            SourceFile::DynamicWithDefaultPath(d, m) => SourceFile::DynamicWithDefaultPath(
                d.clone(),
                m.duplicate(),
            ),
            SourceFile::DynamicWithDefaultSystem(s, m) => SourceFile::DynamicWithDefaultSystem(
                System(s.0.clone()),
                m.duplicate(),
            ),
            SourceFile::Dynamic(m) => SourceFile::Dynamic(m.duplicate()),
        }
    }

    /// The path applying under `system`, if any (see `Shape::resolve_at`).
    pub fn resolve(&self, system: &Option<System>) -> (r: Option<String>)
        requires
            self.inv(),
        ensures
            match r {
                Some(p) => self@.resolve_at(opt_sys_view(*system)) == Some(p@),
                None => self@.resolve_at(opt_sys_view(*system)) is None,
            },
    {
        match system {
            None => match self {
                SourceFile::SourceWithNoSystem(p) => Some(p.clone()),
                SourceFile::DynamicWithDefaultPath(d, _) => Some(d.clone()),
                _ => None,
            },
            Some(sys) => match self {
                SourceFile::SourceWithNoSystem(p) => Some(p.clone()),
                SourceFile::SourceWithSystem(s0, p) => if s0.0 == sys.0 {
                    Some(p.clone())
                } else {
                    None
                },
                SourceFile::Dynamic(m) => match m.get(&sys.0) {
                    Some(v) => Some(v.clone()),
                    None => None,
                },
                SourceFile::DynamicWithDefaultPath(d, m) => match m.get(&sys.0) {
                    Some(v) => Some(v.clone()),
                    None => Some(d.clone()),
                },
                SourceFile::DynamicWithDefaultSystem(s0, m) => match m.get(&sys.0) {
                    Some(v) => Some(v.clone()),
                    None => match m.get(&s0.0) {
                        Some(v) => Some(v.clone()),
                        None => None,
                    },
                },
            },
        }
    }

    /// Whether some entry carries the path `path` (see `Shape::has_path`).
    pub fn contains_path(&self, path: &str) -> (r: bool)
        requires
            self.inv(),
        ensures
            r == self@.has_path(path@),
    {
        let target: String = path.to_owned();
        match self {
            SourceFile::SourceWithNoSystem(p) => {
                let hit = *p == target;
                proof {
                    assert(target@ == path@);
                    if hit {
                        assert(p@ == path@);
                        assert(self@.fallback() == Some(p@));
                        assert(self@.has_path(path@));
                    } else {
                        assert forall|k: Seq<char>|
                            self@.sys_map().dom().contains(k) implies #[trigger] self@.sys_map()[k]
                            != path@ by {
                            assert(!Map::<Seq<char>, Seq<char>>::empty().dom().contains(k));
                        }
                    }
                }
                hit
            },
            SourceFile::SourceWithSystem(s0, p) => {
                let hit = *p == target;
                proof {
                    let smap = self@.sys_map();
                    assert(smap.dom().contains(s0@) && smap[s0@] == p@);
                    if !hit {
                        assert forall|k: Seq<char>|
                            smap.dom().contains(k) implies #[trigger] smap[k] != path@ by {
                            assert(k == s0@);
                        }
                    }
                }
                hit
            },
            SourceFile::Dynamic(m) => {
                let hit = m.contains_value(&target);
                proof {
                    if hit {
                        let k = choose|k: Seq<char>|
                            m@.dom().contains(k) && #[trigger] m@[k] == target@;
                        assert(self@.sys_map().dom().contains(k) && self@.sys_map()[k] == path@);
                    } else {
                        
                        assert forall|k: Seq<char>|
                            self@.sys_map().dom().contains(k) implies #[trigger] self@.sys_map()[k]
                            != path@ by {
                            assert(!(m@.dom().contains(k) && m@[k] == target@));
                        }
                    }
                }
                hit
            },
            SourceFile::DynamicWithDefaultPath(d, m) => {
                let dhit = *d == target;
                let hit = dhit || m.contains_value(&target);
                proof {
                    if dhit {
                        assert(self@.fallback() == Some(path@));
                    } else if hit {
                        let k = choose|k: Seq<char>|
                            m@.dom().contains(k) && #[trigger] m@[k] == target@;
                        assert(self@.sys_map().dom().contains(k) && self@.sys_map()[k] == path@);
                    } else {
                        assert(self@.fallback() != Some(path@));
                        assert forall|k: Seq<char>|
                            self@.sys_map().dom().contains(k) implies #[trigger] self@.sys_map()[k]
                            != path@ by {
                            assert(!(m@.dom().contains(k) && m@[k] == target@));
                        }
                    }
                }
                hit
            },
            SourceFile::DynamicWithDefaultSystem(_, m) => {
                let hit = m.contains_value(&target);
                proof {
                    if hit {
                        let k = choose|k: Seq<char>|
                            m@.dom().contains(k) && #[trigger] m@[k] == target@;
                        assert(self@.sys_map().dom().contains(k) && self@.sys_map()[k] == path@);
                    } else {
                        
                        assert forall|k: Seq<char>|
                            self@.sys_map().dom().contains(k) implies #[trigger] self@.sys_map()[k]
                            != path@ by {
                            assert(!(m@.dom().contains(k) && m@[k] == target@));
                        }
                    }
                }
                hit
            },
        }
    }

    /// Add one (system, path) pair. Fails exactly when the system already
    /// has an entry, naming the system and the path that could not be added;
    /// on success the shape is promoted as `Shape::insert_model` says.
    pub fn insert_link(self, sys: &System, dest_string: &str) -> (r: Result<
        SourceFile,
        InsertError,
    >)
        requires
            self.inv(),
        ensures
            match r {
                Ok(f) => !self@.sys_map().dom().contains(sys@) && f.inv() && f@
                    == self@.insert_model(sys@, dest_string@),
                Err(e) => self@.sys_map().dom().contains(sys@) && e.system@ == sys@ && e.path@
                    == dest_string@,
            },
    {
        match self {
            SourceFile::SourceWithNoSystem(path) => {
                let mut m = SysMap::new();
                m.insert_fresh(sys.0.clone(), dest_string.to_owned());
                proof {
                    lemma_assoc_map(m.entries@);
                }
                Ok(SourceFile::DynamicWithDefaultPath(path, m))
            },
            SourceFile::SourceWithSystem(s0, path) => {
                if s0.0 == sys.0 {
                    proof {
                        assert(self@.sys_map().dom().contains(sys@));
                    }
                    Err(InsertError { system: System(sys.0.clone()), path: dest_string.to_owned() })
                } else {
                    let mut m = SysMap::new();
                    let ghost s0v = s0@;
                    m.insert_fresh(s0.0.clone(), path);
                    m.insert_fresh(sys.0.clone(), dest_string.to_owned());
                    proof {
                        lemma_assoc_map(m.entries@);
                        assert(m@.dom().contains(s0v));
                    }
                    Ok(SourceFile::DynamicWithDefaultSystem(s0, m))
                }
            },
            SourceFile::DynamicWithDefaultPath(d, mut m) => {
                if m.contains_key(&sys.0) {
                    Err(InsertError { system: System(sys.0.clone()), path: dest_string.to_owned() })
                } else {
                    m.insert_fresh(sys.0.clone(), dest_string.to_owned());
                    proof {
                        lemma_assoc_map(m.entries@);
                    }
                    Ok(SourceFile::DynamicWithDefaultPath(d, m))
                }
            },
            SourceFile::DynamicWithDefaultSystem(s0, mut m) => {
                if m.contains_key(&sys.0) {
                    Err(InsertError { system: System(sys.0.clone()), path: dest_string.to_owned() })
                } else {
                    let ghost s0v = s0@;
                    m.insert_fresh(sys.0.clone(), dest_string.to_owned());
                    proof {
                        assert(m@.dom().contains(s0v));
                    }
                    Ok(SourceFile::DynamicWithDefaultSystem(s0, m))
                }
            },
            SourceFile::Dynamic(mut m) => {
                if m.contains_key(&sys.0) {
                    Err(InsertError { system: System(sys.0.clone()), path: dest_string.to_owned() })
                } else {
                    m.insert_fresh(sys.0.clone(), dest_string.to_owned());
                    proof {
                        lemma_assoc_map(m.entries@);
                    }
                    Ok(SourceFile::Dynamic(m))
                }
            },
        }
    }

    /// A plain table, collapsed to the scalar shape when one entry is left.
    fn collapse_table(m2: SysMap) -> (r: Option<SourceFile>)
        requires
            m2.wf(),
        ensures
            match r {
                Some(f) => f.inv() && Shape::plain_or_scalar(m2@) == Some(f@),
                None => Shape::plain_or_scalar(m2@) is None,
            },
    {
        proof {
            lemma_assoc_map(m2.entries@);
        }
        let n = m2.len();
        if n == 0 {
            None
        } else if n == 1 {
            let k = m2.entries[0].0.clone();
            let v = m2.entries[0].1.clone();
            proof {
                assert(m2@.dom().contains(k@) && m2@[k@] == v@);
                let c = m2@.dom().choose();
                assert(m2@.dom().contains(c));
                if c != k@ {
                    assert(m2@.dom().remove(k@).contains(c));
                    assert(m2@.dom().remove(k@).len() == 0);
                    m2@.dom().remove(k@).lemma_len0_is_empty();
                    assert(false);
                }
            }
            Some(SourceFile::SourceWithSystem(System(k), v))
        } else {
            Some(SourceFile::Dynamic(m2))
        }
    }

    /// Remove every entry whose path equals `search_path` and re-derive the
    /// shape as `Shape::remove_model` says; `None` tells the caller to drop
    /// the owning link altogether.
    pub fn remove_link(self, search_path: &str) -> (r: Option<SourceFile>)
        requires
            self.inv(),
        ensures
            match r {
                Some(f) => f.inv() && self@.remove_model(search_path@) == Some(f@),
                None => self@.remove_model(search_path@) is None,
            },
    {
        let target: String = search_path.to_owned();
        match self {
            SourceFile::SourceWithNoSystem(path) => {
                if path == target {
                    None
                } else {
                    Some(SourceFile::SourceWithNoSystem(path))
                }
            },
            SourceFile::SourceWithSystem(s0, path) => {
                if path == target {
                    None
                } else {
                    Some(SourceFile::SourceWithSystem(s0, path))
                }
            },
            SourceFile::Dynamic(m) => {
                proof {
                    lemma_assoc_map(m.entries@);
                }
                Self::collapse_table(m.remove_by_value(&target))
            },
            SourceFile::DynamicWithDefaultPath(d, m) => {
                let m2 = m.remove_by_value(&target);
                proof {
                    lemma_assoc_map(m2.entries@);
                }
                if d == target {
                    if m2.len() == 0 {
                        None
                    } else {
                        Some(SourceFile::Dynamic(m2))
                    }
                } else {
                    if m2.len() == 0 {
                        Some(SourceFile::SourceWithNoSystem(d))
                    } else {
                        Some(SourceFile::DynamicWithDefaultPath(d, m2))
                    }
                }
            },
            SourceFile::DynamicWithDefaultSystem(s0, m) => {
                let ds_hit = match m.get(&s0.0) {
                    Some(p0) => *p0 == target,
                    None => false,
                };
                let m2 = m.remove_by_value(&target);
                proof {
                    lemma_assoc_map(m2.entries@);
                }
                if ds_hit {
                    if m2.len() == 0 {
                        None
                    } else {
                        Some(SourceFile::Dynamic(m2))
                    }
                } else {
                    proof {
                        assert(m2@.dom().contains(s0@));
                    }
                    Some(SourceFile::DynamicWithDefaultSystem(s0, m2))
                }
            },
        }
    }

    /// Flatten the union into entries of (is-default-system, system, path),
    /// the system-independent entry first; `convert_iter_to_source`
    /// reconstitutes the minimal shape from such a list.
    pub fn entries(&self) -> (r: Vec<SourceEntry>)
        requires
            self.inv(),
        ensures
            entries_wf(r@),
            entries_map(r@) == self@.sys_map(),
            entries_fallback(r@) == self@.fallback(),
            entries_flag(r@) == self@.default_system(),
            r@.len() == self@.total_entries(),
            match self@.fallback() {
                Some(d) => r@.len() >= 1 && (#[trigger] r@[0]).0 == false && r@[0].1 is None
                    && r@[0].2@ == d,
                None => true,
            },
    {
        let mut out: Vec<SourceEntry> = Vec::new();
        match self {
            SourceFile::SourceWithNoSystem(p) => {
                out.push((false, None, p.clone()));
                proof {
                    assert(out@.drop_last() =~= Seq::<SourceEntry>::empty());
                    assert(entries_map(Seq::<SourceEntry>::empty())
                        == Map::<Seq<char>, Seq<char>>::empty());
                    assert(entries_map(out@) == self@.sys_map());
                }
            },
            SourceFile::SourceWithSystem(s0, p) => {
                out.push((false, Some(System(s0.0.clone())), p.clone()));
                proof {
                    assert(out@.drop_last() =~= Seq::<SourceEntry>::empty());
                    assert(entries_map(Seq::<SourceEntry>::empty())
                        == Map::<Seq<char>, Seq<char>>::empty());
                    assert(entries_map(out@) == self@.sys_map());
                }
            },
            SourceFile::DynamicWithDefaultPath(d, m) => {
                out.push((false, None, d.clone()));
                proof {
                    assert(out@.drop_last() =~= Seq::<SourceEntry>::empty());
                    assert(entries_map(Seq::<SourceEntry>::empty())
                        == Map::<Seq<char>, Seq<char>>::empty());
                    assert(m.entries@.take(0) =~= Seq::<(String, String)>::empty());
                    assert(assoc_map(Seq::<(String, String)>::empty())
                        == Map::<Seq<char>, Seq<char>>::empty());
                    lemma_assoc_map(m.entries@);
                }
                let n = m.entries.len();
                let mut i: usize = 0;
                while i < n
                    invariant
                        m.wf(),
                        n == m.entries@.len(),
                        i <= n,
                        out@.len() == i + 1,
                        out@[0].0 == false && out@[0].1 is None && out@[0].2@ == d@,
                        forall|j: int|
                            1 <= j < out@.len() ==> (#[trigger] out@[j]).0 == false && entry_sys(
                                out@[j],
                            ) == Some(m.entries@[j - 1].0@) && out@[j].2@ == m.entries@[j - 1].1@,
                        entries_map(out@) == assoc_map(m.entries@.take(i as int)),
                        entries_fallback(out@) == Some(d@),
                        entries_flag(out@) is None,
                        entries_wf(out@),
                    decreases n - i,
                {
                    let ghost prev = out@;
                    out.push((false, Some(System(m.entries[i].0.clone())), m.entries[i].1.clone()));
                    proof {
                        assert(out@.drop_last() =~= prev);
                        assert(m.entries@.take(i + 1).drop_last() =~= m.entries@.take(i as int));
                        assert(m.entries@.take(i + 1).last() == m.entries@[i as int]);
                        assert forall|a: int, b: int|
                            0 <= a < b < out@.len() implies entry_sys(#[trigger] out@[a])
                            != entry_sys(#[trigger] out@[b]) by {
                            if b == out@.len() - 1 && a >= 1 {
                                assert(m.entries@[a - 1].0@ != m.entries@[i as int].0@);
                            }
                        }
                    }
                    i = i + 1;
                }
                proof {
                    assert(m.entries@.take(n as int) =~= m.entries@);
                }
            },
            SourceFile::DynamicWithDefaultSystem(s0, m) => {
                proof {
                    lemma_assoc_map(m.entries@);
                    assert(m.entries@.take(0) =~= Seq::<(String, String)>::empty());
                    assert(assoc_map(Seq::<(String, String)>::empty())
                        == Map::<Seq<char>, Seq<char>>::empty());
                }
                let n = m.entries.len();
                let mut i: usize = 0;
                while i < n
                    invariant
                        m.wf(),
                        m@.dom().contains(s0@),
                        n == m.entries@.len(),
                        i <= n,
                        out@.len() == i,
                        forall|j: int|
                            0 <= j < out@.len() ==> entry_sys(#[trigger] out@[j]) == Some(
                                m.entries@[j].0@,
                            ) && out@[j].2@ == m.entries@[j].1@ && (out@[j].0 <==> m.entries@[j].0@
                                == s0@),
                        entries_map(out@) == assoc_map(m.entries@.take(i as int)),
                        entries_fallback(out@) is None,
                        entries_flag(out@) == (if exists|j: int|
                            0 <= j < i && (#[trigger] m.entries@[j]).0@ == s0@ {
                            Some(s0@)
                        } else {
                            None::<Seq<char>>
                        }),
                        entries_wf(out@),
                    decreases n - i,
                {
                    let ghost prev = out@;
                    let is_default = m.entries[i].0 == s0.0;
                    out.push((
                        is_default,
                        Some(System(m.entries[i].0.clone())),
                        m.entries[i].1.clone(),
                    ));
                    proof {
                        assert(out@.drop_last() =~= prev);
                        assert(m.entries@.take(i + 1).drop_last() =~= m.entries@.take(i as int));
                        assert(m.entries@.take(i + 1).last() == m.entries@[i as int]);
                        assert forall|a: int, b: int|
                            0 <= a < b < out@.len() implies entry_sys(#[trigger] out@[a])
                            != entry_sys(#[trigger] out@[b]) by {
                            if b == out@.len() - 1 {
                                assert(m.entries@[a].0@ != m.entries@[i as int].0@);
                            }
                        }
                        if is_default {
                            assert(entries_flag(out@) == Some(s0@));
                            assert(m.entries@[i as int].0@ == s0@);
                        }
                        assert forall|a: int, b: int|
                            0 <= a < b < out@.len() implies !((#[trigger] out@[a]).0 && (
                        #[trigger] out@[b]).0) by {
                            if b == out@.len() - 1 && out@[a].0 && out@[b].0 {
                                assert(m.entries@[a].0@ == s0@ && m.entries@[i as int].0@ == s0@);
                                assert(false);
                            }
                        }
                    }
                    i = i + 1;
                }
                proof {
                    assert(m.entries@.take(n as int) =~= m.entries@);
                    let j = choose|j: int|
                        0 <= j < m.entries@.len() && #[trigger] m.entries@[j].0@ == s0@;
                    assert(entries_flag(out@) == Some(s0@));
                }
            },
            SourceFile::Dynamic(m) => {
                proof {
                    lemma_assoc_map(m.entries@);
                    assert(m.entries@.take(0) =~= Seq::<(String, String)>::empty());
                    assert(assoc_map(Seq::<(String, String)>::empty())
                        == Map::<Seq<char>, Seq<char>>::empty());
                }
                let n = m.entries.len();
                let mut i: usize = 0;
                while i < n
                    invariant
                        m.wf(),
                        n == m.entries@.len(),
                        i <= n,
                        out@.len() == i,
                        forall|j: int|
                            0 <= j < out@.len() ==> (#[trigger] out@[j]).0 == false && entry_sys(
                                out@[j],
                            ) == Some(m.entries@[j].0@) && out@[j].2@ == m.entries@[j].1@,
                        entries_map(out@) == assoc_map(m.entries@.take(i as int)),
                        entries_fallback(out@) is None,
                        entries_flag(out@) is None,
                        entries_wf(out@),
                    decreases n - i,
                {
                    let ghost prev = out@;
                    out.push((false, Some(System(m.entries[i].0.clone())), m.entries[i].1.clone()));
                    proof {
                        assert(out@.drop_last() =~= prev);
                        assert(m.entries@.take(i + 1).drop_last() =~= m.entries@.take(i as int));
                        assert(m.entries@.take(i + 1).last() == m.entries@[i as int]);
                        assert forall|a: int, b: int|
                            0 <= a < b < out@.len() implies entry_sys(#[trigger] out@[a])
                            != entry_sys(#[trigger] out@[b]) by {
                            if b == out@.len() - 1 {
                                assert(m.entries@[a].0@ != m.entries@[i as int].0@);
                            }
                        }
                    }
                    i = i + 1;
                }
                proof {
                    assert(m.entries@.take(n as int) =~= m.entries@);
                }
            },
        }
        out
    }

    /// Drop every entry whose path lies in `missing` and reconstitute the
    /// minimal shape from what survives (see `prune_model`); `None` tells
    /// the caller to drop the owning link.
    pub fn prune_entries(&self, missing: &Vec<String>) -> (r: Option<SourceFile>)
        requires
            self.inv(),
        ensures
            match r {
                Some(f) => f.inv() && prune_model(self@, str_set(missing@)) == Some(f@),
                None => prune_model(self@, str_set(missing@)) is None,
            },
    {
        match self {
            SourceFile::SourceWithNoSystem(p) => {
                proof {
                    assert(val_set_filter(Map::<Seq<char>, Seq<char>>::empty(), str_set(
                        missing@,
                    )).dom() =~= Set::<Seq<char>>::empty());
                }
                if str_list_contains(missing, p) {
                    proof {
                        assert(prune_no_fallback(self@, val_set_filter(self@.sys_map(), str_set(
                            missing@,
                        ))) is None);
                    }
                    None
                } else {
                    Some(SourceFile::SourceWithNoSystem(p.clone()))
                }
            },
            SourceFile::SourceWithSystem(s0, p) => {
                let ghost m1 = self@.sys_map();
                let ghost m2 = val_set_filter(m1, str_set(missing@));
                if str_list_contains(missing, p) {
                    proof {
                        assert(m2.dom() =~= Set::<Seq<char>>::empty());
                    }
                    None
                } else {
                    proof {
                        assert(m2 =~= m1);
                        assert(m1.dom() =~= Set::<Seq<char>>::empty().insert(s0@));
                        assert(m1.len() == 1);
                        let c = m2.dom().choose();
                        assert(m2.dom().contains(s0@));
                        assert(m2.dom().contains(c));
                        lemma_singleton_elem(m2.dom(), c, s0@);
                    }
                    Some(SourceFile::SourceWithSystem(System(s0.0.clone()), p.clone()))
                }
            },
            SourceFile::DynamicWithDefaultPath(d, m) => {
                let m2 = m.remove_by_values(missing);
                proof {
                    lemma_assoc_map(m2.entries@);
                }
                if str_list_contains(missing, d) {
                    Self::collapse_table(m2)
                } else {
                    if m2.len() == 0 {
                        Some(SourceFile::SourceWithNoSystem(d.clone()))
                    } else {
                        Some(SourceFile::DynamicWithDefaultPath(d.clone(), m2))
                    }
                }
            },
            SourceFile::DynamicWithDefaultSystem(s0, m) => {
                let m2 = m.remove_by_values(missing);
                proof {
                    lemma_assoc_map(m2.entries@);
                }
                if m2.contains_key(&s0.0) {
                    if m2.len() >= 2 {
                        Some(SourceFile::DynamicWithDefaultSystem(System(s0.0.clone()), m2))
                    } else {
                        Self::collapse_table(m2)
                    }
                } else {
                    Self::collapse_table(m2)
                }
            },
            SourceFile::Dynamic(m) => {
                let m2 = m.remove_by_values(missing);
                Self::collapse_table(m2)
            },
        }
    }

    /// A table shape whose designated default is one of the given systems;
    /// fails, naming the system, when the table has no entry for it.
    pub fn with_default(default: String, system_map: SysMap) -> (r: Result<
        SourceFile,
        SystemNotFound,
    >)
        requires
            system_map.wf(),
        ensures
            match r {
                Ok(f) => system_map@.dom().contains(default@) && f.inv() && f@ == (
                Shape::DefaultSystem { system: default@, map: system_map@ }),
                Err(e) => !system_map@.dom().contains(default@) && e.system@ == default@,
            },
    {
        if system_map.contains_key(&default) {
            proof {
                lemma_assoc_map(system_map.entries@);
            }
            Ok(SourceFile::DynamicWithDefaultSystem(System(default), system_map))
        } else {
            Err(SystemNotFound { system: System(default) })
        }
    }
}

} // verus!
