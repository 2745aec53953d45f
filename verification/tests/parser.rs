use globfs::glob::{PathGlob, PathGlobs};
use globfs::path::PathBuf;
use globfs::stat::{Dir, PathStat, Stat};

fn p(components: &[&str]) -> PathBuf {
    PathBuf { components: components.iter().map(|c| c.to_string()).collect() }
}

fn s(text: &str) -> String {
    text.to_string()
}

#[test]
fn root_pattern_yields_root() {
    let globs = PathGlobs::create(&Dir(p(&["."])), vec![p(&["."])]);
    assert_eq!(globs.0, vec![PathGlob::Root]);
}

#[test]
fn doublestar_collapsing_is_idempotent() {
    let base = Dir(p(&["base"]));
    let a = PathGlobs::create(&base, vec![p(&["a", "**", "**", "b"])]);
    let b = PathGlobs::create(&base, vec![p(&["a", "**", "b"])]);
    assert_eq!(a.0, b.0);
}

#[test]
fn doublestar_alone_yields_two_units() {
    let base = Dir(p(&["base"]));
    let globs = PathGlobs::create(&base, vec![p(&["**"])]);
    assert_eq!(
        globs.0,
        vec![
            PathGlob::DirWildcard {
                canonical_dir: Dir(p(&["base"])),
                symbolic_path: p(&["base"]),
                wildcard: s("*"),
                remainder: p(&["**"]),
            },
            PathGlob::Wildcard {
                canonical_dir: Dir(p(&["base"])),
                symbolic_path: p(&["base"]),
                wildcard: s("*"),
            },
        ]
    );
}

#[test]
fn doublestar_then_name_yields_two_units() {
    let base = Dir(p(&["base"]));
    let globs = PathGlobs::create(&base, vec![p(&["**", "foo"])]);
    assert_eq!(
        globs.0,
        vec![
            PathGlob::DirWildcard {
                canonical_dir: Dir(p(&["base"])),
                symbolic_path: p(&["base"]),
                wildcard: s("*"),
                remainder: p(&["**", "foo"]),
            },
            PathGlob::Wildcard {
                canonical_dir: Dir(p(&["base"])),
                symbolic_path: p(&["base"]),
                wildcard: s("foo"),
            },
        ]
    );
}

#[test]
fn two_literal_components_yield_dir_wildcard() {
    let base = Dir(p(&["base"]));
    let globs = PathGlobs::create(&base, vec![p(&["a", "b"])]);
    assert_eq!(
        globs.0,
        vec![PathGlob::DirWildcard {
            canonical_dir: Dir(p(&["base"])),
            symbolic_path: p(&["base"]),
            wildcard: s("a"),
            remainder: p(&["b"]),
        }]
    );
}

#[test]
fn single_component_yields_wildcard() {
    let base = Dir(p(&["base"]));
    let globs = PathGlobs::create(&base, vec![p(&["name"])]);
    assert_eq!(
        globs.0,
        vec![PathGlob::Wildcard {
            canonical_dir: Dir(p(&["base"])),
            symbolic_path: p(&["base"]),
            wildcard: s("name"),
        }]
    );
}

#[test]
fn patterns_keep_input_order() {
    let base = Dir(p(&["base"]));
    let globs = PathGlobs::create(&base, vec![p(&["a"]), p(&["b"])]);
    assert_eq!(
        globs.0,
        vec![
            PathGlob::Wildcard {
                canonical_dir: Dir(p(&["base"])),
                symbolic_path: p(&["base"]),
                wildcard: s("a"),
            },
            PathGlob::Wildcard {
                canonical_dir: Dir(p(&["base"])),
                symbolic_path: p(&["base"]),
                wildcard: s("b"),
            },
        ]
    );
}

#[test]
fn normalize_collapses_doublestar_runs() {
    let parts: Vec<String> = vec![s("**"), s("**"), s("a"), s("**"), s("**"), s("**"), s("b")];
    let normalized = PathGlobs::normalize_doublestar(&parts);
    assert_eq!(normalized, vec![s("**"), s("a"), s("**"), s("b")]);
}

#[test]
fn root_stat_is_empty_dir() {
    assert_eq!(
        PathGlob::root_stat(),
        PathStat { path: p(&[]), stat: Stat::Dir(Dir(p(&[]))) }
    );
}
