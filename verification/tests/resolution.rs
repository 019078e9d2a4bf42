//! The source-file addressing model: resolution over the five shapes, and
//! the insert/remove mutations with their minimality behaviour.

use dotlinks::link::{SourceFile, SysMap};
use dotlinks::System;

fn sys(s: &str) -> System {
    System::from_str(s)
}

fn sysmap(pairs: &[(&str, &str)]) -> SysMap {
    let mut m = SysMap::new();
    for (k, v) in pairs {
        m.insert_fresh(k.to_string(), v.to_string());
    }
    m
}

#[test]
fn no_system_resolves_everywhere() {
    let sf = SourceFile::SourceWithNoSystem("a/b".to_string());
    assert_eq!(sf.resolve(&None), Some("a/b".to_string()));
    assert_eq!(sf.resolve(&Some(sys("macos"))), Some("a/b".to_string()));
}

#[test]
fn with_system_resolves_only_exactly() {
    let sf = SourceFile::SourceWithSystem(sys("macos"), "a/b".to_string());
    assert_eq!(sf.resolve(&Some(sys("linux"))), None);
    assert_eq!(sf.resolve(&Some(sys("macos"))), Some("a/b".to_string()));
    assert_eq!(sf.resolve(&None), None);
}

#[test]
fn default_path_map_always_resolves() {
    let sf = SourceFile::DynamicWithDefaultPath("a/b".to_string(), sysmap(&[("macos", "a/mac")]));
    assert_eq!(sf.resolve(&Some(sys("linux"))), Some("a/b".to_string()));
    assert_eq!(sf.resolve(&Some(sys("macos"))), Some("a/mac".to_string()));
    assert_eq!(sf.resolve(&None), Some("a/b".to_string()));
}

#[test]
fn default_system_map_falls_back_to_designated_entry() {
    let sf = SourceFile::DynamicWithDefaultSystem(
        sys("macos"),
        sysmap(&[("macos", "a/mac"), ("linux", "a/lin")]),
    );
    assert_eq!(sf.resolve(&Some(sys("linux"))), Some("a/lin".to_string()));
    assert_eq!(sf.resolve(&Some(sys("windows"))), Some("a/mac".to_string()));
    assert_eq!(sf.resolve(&None), None);
}

#[test]
fn plain_map_resolves_only_mapped_systems() {
    let sf = SourceFile::Dynamic(sysmap(&[("macos", "a/mac"), ("linux", "a/lin")]));
    assert_eq!(sf.resolve(&Some(sys("macos"))), Some("a/mac".to_string()));
    assert_eq!(sf.resolve(&Some(sys("windows"))), None);
    assert_eq!(sf.resolve(&None), None);
}

#[test]
fn resolve_is_deterministic() {
    let sf = SourceFile::DynamicWithDefaultPath("a/b".to_string(), sysmap(&[("macos", "a/mac")]));
    let first = sf.resolve(&Some(sys("macos")));
    let second = sf.resolve(&Some(sys("macos")));
    assert_eq!(first, second);
}

#[test]
fn insert_promotes_no_system_to_default_path_map() {
    let sf = SourceFile::SourceWithNoSystem("a/b".to_string());
    let sf = sf.insert_link(&sys("macos"), "a/mac").unwrap();
    match &sf {
        SourceFile::DynamicWithDefaultPath(default, map) => {
            assert_eq!(default, "a/b");
            assert_eq!(map.len(), 1);
            assert_eq!(map.get(&"macos".to_string()), Some(&"a/mac".to_string()));
        }
        other => panic!("expected a default-path map, got {:?}", other),
    }
    let err = sf.insert_link(&sys("macos"), "a/other").unwrap_err();
    assert_eq!(err.system.0, "macos");
    assert_eq!(err.path, "a/other");
}

#[test]
fn insert_promotes_with_system_to_default_system_map() {
    let sf = SourceFile::SourceWithSystem(sys("macos"), "a/mac".to_string());
    let sf = sf.insert_link(&sys("linux"), "a/lin").unwrap();
    match &sf {
        SourceFile::DynamicWithDefaultSystem(default, map) => {
            assert_eq!(default.0, "macos");
            assert_eq!(map.len(), 2);
            assert_eq!(map.get(&"macos".to_string()), Some(&"a/mac".to_string()));
            assert_eq!(map.get(&"linux".to_string()), Some(&"a/lin".to_string()));
        }
        other => panic!("expected a default-system map, got {:?}", other),
    }
}

#[test]
fn insert_conflicts_on_the_same_system() {
    let sf = SourceFile::SourceWithSystem(sys("macos"), "a/mac".to_string());
    let err = sf.insert_link(&sys("macos"), "a/else").unwrap_err();
    assert_eq!(err.system.0, "macos");
    assert_eq!(err.path, "a/else");

    let sf = SourceFile::Dynamic(sysmap(&[("macos", "a/mac"), ("linux", "a/lin")]));
    let err = sf.insert_link(&sys("linux"), "a/two").unwrap_err();
    assert_eq!(err.system.0, "linux");
    assert_eq!(err.path, "a/two");
}

#[test]
fn remove_only_entry_drops_the_source() {
    let sf = SourceFile::SourceWithNoSystem("a/b".to_string());
    assert!(sf.remove_link("a/b").is_none());
}

#[test]
fn remove_other_path_keeps_the_source() {
    let sf = SourceFile::SourceWithNoSystem("a/b".to_string());
    match sf.remove_link("a/zzz") {
        Some(SourceFile::SourceWithNoSystem(p)) => assert_eq!(p, "a/b"),
        other => panic!("expected the unchanged scalar shape, got {:?}", other),
    }
}

#[test]
fn remove_collapses_a_plain_map_to_a_scalar() {
    let sf = SourceFile::Dynamic(sysmap(&[("macos", "a/mac"), ("linux", "a/lin")]));
    match sf.remove_link("a/lin") {
        Some(SourceFile::SourceWithSystem(s, p)) => {
            assert_eq!(s.0, "macos");
            assert_eq!(p, "a/mac");
        }
        other => panic!("expected the scalar shape, got {:?}", other),
    }
}

#[test]
fn remove_of_the_default_path_degrades_to_a_plain_map() {
    // the flagged degradation case: even one remaining entry stays a map
    let sf = SourceFile::DynamicWithDefaultPath("a/b".to_string(), sysmap(&[("macos", "a/mac")]));
    match sf.remove_link("a/b") {
        Some(SourceFile::Dynamic(map)) => {
            assert_eq!(map.len(), 1);
            assert_eq!(map.get(&"macos".to_string()), Some(&"a/mac".to_string()));
        }
        other => panic!("expected the degraded plain map, got {:?}", other),
    }
}

#[test]
fn remove_of_the_default_system_entry_degrades_to_a_plain_map() {
    let sf = SourceFile::DynamicWithDefaultSystem(
        sys("macos"),
        sysmap(&[("macos", "a/mac"), ("linux", "a/lin")]),
    );
    match sf.remove_link("a/mac") {
        Some(SourceFile::Dynamic(map)) => {
            assert_eq!(map.len(), 1);
            assert_eq!(map.get(&"linux".to_string()), Some(&"a/lin".to_string()));
        }
        other => panic!("expected the degraded plain map, got {:?}", other),
    }
}

#[test]
fn remove_keeps_a_lone_designated_default() {
    let sf = SourceFile::DynamicWithDefaultSystem(
        sys("macos"),
        sysmap(&[("macos", "a/mac"), ("linux", "a/lin")]),
    );
    match sf.remove_link("a/lin") {
        Some(SourceFile::DynamicWithDefaultSystem(s, map)) => {
            assert_eq!(s.0, "macos");
            assert_eq!(map.len(), 1);
        }
        other => panic!("expected the default-system map to survive, got {:?}", other),
    }
}

#[test]
fn remove_of_all_map_entries_restores_no_system() {
    let sf = SourceFile::DynamicWithDefaultPath("a/b".to_string(), sysmap(&[("macos", "a/mac")]));
    match sf.remove_link("a/mac") {
        Some(SourceFile::SourceWithNoSystem(p)) => assert_eq!(p, "a/b"),
        other => panic!("expected the scalar no-system shape, got {:?}", other),
    }
}

#[test]
fn insert_then_remove_restores_behaviour() {
    // a fresh pair added and removed again leaves resolution as it was
    let sf = SourceFile::SourceWithNoSystem("a/b".to_string());
    let round = sf
        .insert_link(&sys("macos"), "a/mac")
        .unwrap()
        .remove_link("a/mac")
        .unwrap();
    assert_eq!(round.resolve(&None), Some("a/b".to_string()));
    assert_eq!(round.resolve(&Some(sys("macos"))), Some("a/b".to_string()));

    let sf = SourceFile::Dynamic(sysmap(&[("macos", "a/mac"), ("linux", "a/lin")]));
    let round = sf
        .insert_link(&sys("windows"), "a/win")
        .unwrap()
        .remove_link("a/win")
        .unwrap();
    assert_eq!(round.resolve(&Some(sys("macos"))), Some("a/mac".to_string()));
    assert_eq!(round.resolve(&Some(sys("linux"))), Some("a/lin".to_string()));
    // the round-tripped system resolves to nothing, as before
    assert_eq!(round.resolve(&Some(sys("windows"))), None);
}

#[test]
fn contains_path_sees_every_entry() {
    let sf = SourceFile::DynamicWithDefaultPath("a/b".to_string(), sysmap(&[("macos", "a/mac")]));
    assert!(sf.contains_path("a/b"));
    assert!(sf.contains_path("a/mac"));
    assert!(!sf.contains_path("a/zzz"));
}

#[test]
fn with_default_needs_the_designated_entry() {
    let sf = SourceFile::with_default("macos".to_string(), sysmap(&[("macos", "a/mac")])).unwrap();
    match sf {
        SourceFile::DynamicWithDefaultSystem(s, _) => assert_eq!(s.0, "macos"),
        other => panic!("expected a default-system map, got {:?}", other),
    }
    let err = SourceFile::with_default("macos".to_string(), sysmap(&[("linux", "a/lin")]))
        .unwrap_err();
    assert_eq!(err.system.0, "macos");
}

#[test]
fn entries_and_convert_round_trip() {
    let sf = SourceFile::DynamicWithDefaultSystem(
        sys("macos"),
        sysmap(&[("macos", "a/mac"), ("linux", "a/lin")]),
    );
    let entries = sf.entries();
    assert_eq!(entries.len(), 2);
    let back = dotlinks::link::convert_iter_to_source(entries).unwrap();
    match back {
        SourceFile::DynamicWithDefaultSystem(s, map) => {
            assert_eq!(s.0, "macos");
            assert_eq!(map.get(&"macos".to_string()), Some(&"a/mac".to_string()));
            assert_eq!(map.get(&"linux".to_string()), Some(&"a/lin".to_string()));
        }
        other => panic!("expected the default-system map back, got {:?}", other),
    }
}

#[test]
fn convert_of_nothing_is_nothing() {
    assert!(dotlinks::link::convert_iter_to_source(Vec::new()).is_none());
}

#[test]
fn convert_collapses_a_single_entry_to_a_scalar() {
    let entries = vec![(false, Some(sys("macos")), "a/mac".to_string())];
    match dotlinks::link::convert_iter_to_source(entries) {
        Some(SourceFile::SourceWithSystem(s, p)) => {
            assert_eq!(s.0, "macos");
            assert_eq!(p, "a/mac");
        }
        other => panic!("expected the scalar shape, got {:?}", other),
    }
}

#[test]
fn prune_entries_reconstitutes_the_minimal_shape() {
    let sf = SourceFile::DynamicWithDefaultPath(
        "a/b".to_string(),
        sysmap(&[("macos", "a/mac"), ("linux", "a/lin")]),
    );
    let missing = vec!["a/mac".to_string(), "a/lin".to_string()];
    match sf.prune_entries(&missing) {
        Some(SourceFile::SourceWithNoSystem(p)) => assert_eq!(p, "a/b"),
        other => panic!("expected the collapsed no-system shape, got {:?}", other),
    }
    let all = vec!["a/b".to_string(), "a/mac".to_string(), "a/lin".to_string()];
    assert!(sf.prune_entries(&all).is_none());
}
