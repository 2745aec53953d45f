use globfs::apply::{apply_path_glob, GlobMatches};
use globfs::context::{expand_link, FSContext};
use globfs::glob::{PathGlob, PathGlobs};
use globfs::memfs::MemFs;
use globfs::path::PathBuf;
use globfs::stat::{Dir, File, Link, LinkExpansion, PathStat, Stat};

fn p(components: &[&str]) -> PathBuf {
    PathBuf { components: components.iter().map(|c| c.to_string()).collect() }
}

fn s(text: &str) -> String {
    text.to_string()
}

fn empty_fs() -> MemFs {
    MemFs { stats: vec![], links: vec![], dirs: vec![] }
}

#[test]
fn root_applies_without_backend() {
    let fs = empty_fs();
    let r = apply_path_glob(&fs, &PathGlob::Root);
    assert_eq!(
        r,
        Ok(GlobMatches {
            path_stats: vec![PathStat { path: p(&[]), stat: Stat::Dir(Dir(p(&[]))) }],
            errors: vec![],
        })
    );
}

#[test]
fn wildcard_matches_are_never_links() {
    let fs = MemFs {
        stats: vec![(p(&["target"]), Stat::File(File(p(&["target"]))))],
        links: vec![(p(&["base", "ln"]), p(&["target"]))],
        dirs: vec![(
            p(&["base"]),
            vec![
                Stat::File(File(p(&["base", "x.txt"]))),
                Stat::Dir(Dir(p(&["base", "sub"]))),
                Stat::Link(Link(p(&["base", "ln"]))),
            ],
        )],
    };
    let unit = PathGlob::Wildcard {
        canonical_dir: Dir(p(&["base"])),
        symbolic_path: p(&[]),
        wildcard: s("*"),
    };
    let m = apply_path_glob(&fs, &unit).unwrap();
    assert!(m.errors.is_empty());
    for ps in &m.path_stats {
        assert!(matches!(ps.stat, Stat::File(_) | Stat::Dir(_)));
    }
    assert_eq!(
        m.path_stats,
        vec![
            PathStat { path: p(&["x.txt"]), stat: Stat::File(File(p(&["base", "x.txt"]))) },
            PathStat { path: p(&["sub"]), stat: Stat::Dir(Dir(p(&["base", "sub"]))) },
            PathStat { path: p(&["ln"]), stat: Stat::File(File(p(&["target"]))) },
        ]
    );
}

fn chain_fs(links: usize) -> MemFs {
    // links named l1 .. l<links>, each pointing at the next, the last at
    // the file f.
    let mut fs = empty_fs();
    for i in 1..=links {
        let name = format!("l{}", i);
        let next = if i == links { s("f") } else { format!("l{}", i + 1) };
        fs.links.push((p(&[&name]), p(&[&next])));
        if i > 1 {
            fs.stats.push((p(&[&name]), Stat::Link(Link(p(&[&name])))));
        }
    }
    fs.stats.push((p(&["f"]), Stat::File(File(p(&["f"])))));
    fs
}

#[test]
fn short_link_chain_resolves() {
    let fs = chain_fs(3);
    let r = expand_link(&Link(p(&["l1"])), &fs);
    assert_eq!(r, Ok(LinkExpansion::File(File(p(&["f"])))));
}

#[test]
fn link_cycle_reports_loop() {
    let fs = MemFs {
        stats: vec![
            (p(&["a"]), Stat::Link(Link(p(&["a"])))),
            (p(&["b"]), Stat::Link(Link(p(&["b"])))),
        ],
        links: vec![(p(&["a"]), p(&["b"])), (p(&["b"]), p(&["a"]))],
        dirs: vec![],
    };
    let r = expand_link(&Link(p(&["a"])), &fs);
    assert!(matches!(r, Ok(LinkExpansion::Loop(_))));
}

#[test]
fn chain_of_sixty_four_links_still_resolves() {
    let fs = chain_fs(64);
    let r = expand_link(&Link(p(&["l1"])), &fs);
    assert_eq!(r, Ok(LinkExpansion::File(File(p(&["f"])))));
}

#[test]
fn chain_of_sixty_five_links_reports_loop() {
    let fs = chain_fs(65);
    let r = expand_link(&Link(p(&["l1"])), &fs);
    assert!(matches!(r, Ok(LinkExpansion::Loop(_))));
}

#[test]
fn dir_wildcard_with_no_matching_subdirectories_is_empty() {
    let fs = MemFs {
        stats: vec![],
        links: vec![],
        dirs: vec![(
            p(&["base"]),
            vec![
                Stat::File(File(p(&["base", "main.rs"]))),
                Stat::File(File(p(&["base", "mod.rs"]))),
                Stat::Dir(Dir(p(&["base", "zzz"]))),
            ],
        )],
    };
    let unit = PathGlob::DirWildcard {
        canonical_dir: Dir(p(&["base"])),
        symbolic_path: p(&[]),
        wildcard: s("m*"),
        remainder: p(&["x"]),
    };
    let r = apply_path_glob(&fs, &unit);
    assert_eq!(r, Ok(GlobMatches { path_stats: vec![], errors: vec![] }));
}

#[test]
fn literal_pattern_matches_direct_inspection() {
    let fs = MemFs {
        stats: vec![(p(&["a", "b"]), Stat::File(File(p(&["a", "b"]))))],
        links: vec![],
        dirs: vec![
            (p(&[]), vec![Stat::Dir(Dir(p(&["a"])))]),
            (p(&["a"]), vec![Stat::File(File(p(&["a", "b"])))]),
        ],
    };
    let globs = PathGlobs::create(&Dir(p(&[])), vec![p(&["a", "b"])]);
    let mut all: Vec<PathStat> = vec![];
    for unit in &globs.0 {
        let m = apply_path_glob(&fs, unit).unwrap();
        assert!(m.errors.is_empty());
        all.extend(m.path_stats);
    }
    let direct = fs.stat(&p(&["a", "b"])).unwrap();
    assert_eq!(all, vec![PathStat { path: p(&["a", "b"]), stat: direct }]);
}

#[test]
fn doublestar_walks_nested_directories() {
    let fs = MemFs {
        stats: vec![],
        links: vec![],
        dirs: vec![
            (p(&["base"]), vec![Stat::Dir(Dir(p(&["base", "sub"])))]),
            (
                p(&["base", "sub"]),
                vec![Stat::File(File(p(&["base", "sub", "deep.txt"])))],
            ),
        ],
    };
    let globs = PathGlobs::create(&Dir(p(&["base"])), vec![p(&["**", "deep.txt"])]);
    let mut all: Vec<PathStat> = vec![];
    for unit in &globs.0 {
        let m = apply_path_glob(&fs, unit).unwrap();
        assert!(m.errors.is_empty());
        all.extend(m.path_stats);
    }
    assert_eq!(
        all,
        vec![PathStat {
            path: p(&["base", "sub", "deep.txt"]),
            stat: Stat::File(File(p(&["base", "sub", "deep.txt"]))),
        }]
    );
}

#[test]
fn missing_directory_reports_pending() {
    let fs = empty_fs();
    let unit = PathGlob::Wildcard {
        canonical_dir: Dir(p(&["nowhere"])),
        symbolic_path: p(&[]),
        wildcard: s("*"),
    };
    let r = apply_path_glob(&fs, &unit);
    assert_eq!(r, Err(vec![()]));
}

#[test]
fn missing_link_target_reports_pending() {
    let fs = empty_fs();
    let r = expand_link(&Link(p(&["nope"])), &fs);
    assert_eq!(r, Err(()));
}

#[test]
fn symlink_loop_is_error_not_silent_drop() {
    let fs = MemFs {
        stats: vec![
            (p(&["ln"]), Stat::Link(Link(p(&["ln"])))),
            (p(&["ln2"]), Stat::Link(Link(p(&["ln2"])))),
        ],
        links: vec![(p(&["ln"]), p(&["ln2"])), (p(&["ln2"]), p(&["ln"]))],
        dirs: vec![(
            p(&["base"]),
            vec![
                Stat::Link(Link(p(&["base", "cyclic"]))),
                Stat::File(File(p(&["base", "ok.txt"]))),
            ],
        )],
    };
    // the directory entry "cyclic" is itself a link into the cycle
    let mut fs = fs;
    fs.links.push((p(&["base", "cyclic"]), p(&["ln"])));
    let unit = PathGlob::Wildcard {
        canonical_dir: Dir(p(&["base"])),
        symbolic_path: p(&[]),
        wildcard: s("*"),
    };
    let m = apply_path_glob(&fs, &unit).unwrap();
    assert_eq!(m.errors.len(), 1);
    assert_eq!(
        m.path_stats,
        vec![PathStat { path: p(&["ok.txt"]), stat: Stat::File(File(p(&["base", "ok.txt"]))) }]
    );
}

#[test]
fn pendings_are_aggregated_across_entries() {
    // two links whose targets the backend cannot answer: both
    // continuations are collected, not just the first
    let fs = MemFs {
        stats: vec![],
        links: vec![],
        dirs: vec![(
            p(&["base"]),
            vec![
                Stat::Link(Link(p(&["base", "one"]))),
                Stat::Link(Link(p(&["base", "two"]))),
            ],
        )],
    };
    let unit = PathGlob::Wildcard {
        canonical_dir: Dir(p(&["base"])),
        symbolic_path: p(&[]),
        wildcard: s("*"),
    };
    let r = apply_path_glob(&fs, &unit);
    assert_eq!(r, Err(vec![(), ()]));
}

#[test]
fn doublestar_alone_unions_both_interpretations() {
    let fs = MemFs {
        stats: vec![],
        links: vec![],
        dirs: vec![
            (p(&["base"]), vec![Stat::Dir(Dir(p(&["base", "sub"])))]),
            (
                p(&["base", "sub"]),
                vec![Stat::File(File(p(&["base", "sub", "deep.txt"])))],
            ),
        ],
    };
    let globs = PathGlobs::create(&Dir(p(&["base"])), vec![p(&["**"])]);
    assert_eq!(globs.0.len(), 2);

    // the recursive interpretation descends into `sub`
    let m1 = apply_path_glob(&fs, &globs.0[0]).unwrap();
    assert!(m1.errors.is_empty());
    assert_eq!(
        m1.path_stats,
        vec![PathStat {
            path: p(&["base", "sub", "deep.txt"]),
            stat: Stat::File(File(p(&["base", "sub", "deep.txt"]))),
        }]
    );

    // the zero-directories interpretation matches `sub` itself
    let m2 = apply_path_glob(&fs, &globs.0[1]).unwrap();
    assert!(m2.errors.is_empty());
    assert_eq!(
        m2.path_stats,
        vec![PathStat {
            path: p(&["base", "sub"]),
            stat: Stat::Dir(Dir(p(&["base", "sub"]))),
        }]
    );
}

#[test]
fn dir_wildcard_skips_links_resolving_to_files() {
    let fs = MemFs {
        stats: vec![(p(&["somewhere"]), Stat::File(File(p(&["somewhere"]))))],
        links: vec![(p(&["base", "ln"]), p(&["somewhere"]))],
        dirs: vec![(p(&["base"]), vec![Stat::Link(Link(p(&["base", "ln"])))])],
    };
    let unit = PathGlob::DirWildcard {
        canonical_dir: Dir(p(&["base"])),
        symbolic_path: p(&[]),
        wildcard: s("*"),
        remainder: p(&["x"]),
    };
    let r = apply_path_glob(&fs, &unit);
    assert_eq!(r, Ok(GlobMatches { path_stats: vec![], errors: vec![] }));
}

#[test]
fn dir_wildcard_surfaces_link_loops_as_errors() {
    let fs = MemFs {
        stats: vec![(p(&["loopy"]), Stat::Link(Link(p(&["loopy"]))))],
        links: vec![
            (p(&["base", "ln"]), p(&["loopy"])),
            (p(&["loopy"]), p(&["loopy"])),
        ],
        dirs: vec![(p(&["base"]), vec![Stat::Link(Link(p(&["base", "ln"])))])],
    };
    let unit = PathGlob::DirWildcard {
        canonical_dir: Dir(p(&["base"])),
        symbolic_path: p(&[]),
        wildcard: s("*"),
        remainder: p(&["x"]),
    };
    let m = apply_path_glob(&fs, &unit).unwrap();
    assert!(m.path_stats.is_empty());
    assert_eq!(m.errors.len(), 1);
}

#[test]
fn wildcard_link_loops_are_counted_per_entry() {
    // two matching links into the same cycle: one error for each entry
    let fs = MemFs {
        stats: vec![(p(&["loopy"]), Stat::Link(Link(p(&["loopy"]))))],
        links: vec![
            (p(&["base", "a"]), p(&["loopy"])),
            (p(&["base", "b"]), p(&["loopy"])),
            (p(&["loopy"]), p(&["loopy"])),
        ],
        dirs: vec![(
            p(&["base"]),
            vec![
                Stat::Link(Link(p(&["base", "a"]))),
                Stat::Link(Link(p(&["base", "b"]))),
            ],
        )],
    };
    let unit = PathGlob::Wildcard {
        canonical_dir: Dir(p(&["base"])),
        symbolic_path: p(&[]),
        wildcard: s("*"),
    };
    let m = apply_path_glob(&fs, &unit).unwrap();
    assert!(m.path_stats.is_empty());
    assert_eq!(m.errors.len(), 2);
}
