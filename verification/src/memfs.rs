use vstd::prelude::*;
use crate::context::{stat_views, FSContext};
use crate::path::PathBuf;
use crate::stat::{Dir, Link, Stat, StatView};

verus! {

/// A synchronous in-memory backend: association lists from paths to
/// classifications, link targets, and directory listings. A lookup that
/// finds nothing answers `Err(())`; the unit continuation also stands
/// for a not-found failure, which this core passes through opaquely.
pub struct MemFs {
    pub stats: Vec<(PathBuf, Stat)>,
    pub links: Vec<(PathBuf, PathBuf)>,
    pub dirs: Vec<(PathBuf, Vec<Stat>)>,
}

/// The first classification recorded for `path` at or after index `i`.
pub open spec fn stat_lookup(
    entries: Seq<(PathBuf, Stat)>,
    path: Seq<Seq<char>>,
    i: int,
) -> Option<StatView>
    decreases entries.len() - i,
{
    if i < 0 || i >= entries.len() {
        None
    } else if entries[i].0@ == path {
        Some(entries[i].1@)
    } else {
        stat_lookup(entries, path, i + 1)
    }
}

/// The first link target recorded for `path` at or after index `i`.
pub open spec fn link_lookup(
    entries: Seq<(PathBuf, PathBuf)>,
    path: Seq<Seq<char>>,
    i: int,
) -> Option<Seq<Seq<char>>>
    decreases entries.len() - i,
{
    if i < 0 || i >= entries.len() {
        None
    } else if entries[i].0@ == path {
        Some(entries[i].1@)
    } else {
        link_lookup(entries, path, i + 1)
    }
}

/// The first directory listing recorded for `path` at or after index `i`.
pub open spec fn dir_lookup(
    entries: Seq<(PathBuf, Vec<Stat>)>,
    path: Seq<Seq<char>>,
    i: int,
) -> Option<Seq<StatView>>
    decreases entries.len() - i,
{
    if i < 0 || i >= entries.len() {
        None
    } else if entries[i].0@ == path {
        Some(stat_views(entries[i].1@))
    } else {
        dir_lookup(entries, path, i + 1)
    }
}

fn clone_stat_list(v: &Vec<Stat>) -> (r: Vec<Stat>)
    ensures
        stat_views(r@) == stat_views(v@),
{
    let mut r: Vec<Stat> = Vec::new();
    let mut i: usize = 0;
    while i < v.len()
        invariant
            i <= v@.len(),
            r@.len() == i as int,
            forall|j: int| 0 <= j < i as int ==> (#[trigger] r@[j])@ == v@[j]@,
        decreases v@.len() - i,
    {
        r.push(v[i].clone());
        i = i + 1;
    }
    proof {
        assert(stat_views(r@) =~= stat_views(v@));
    }
    r
}

impl FSContext<()> for MemFs {
    open spec fn stat_model(&self, path: Seq<Seq<char>>) -> Option<StatView> {
        stat_lookup(self.stats@, path, 0)
    }

    open spec fn link_model(&self, link: Seq<Seq<char>>) -> Option<Seq<Seq<char>>> {
        link_lookup(self.links@, link, 0)
    }

    open spec fn scandir_model(&self, dir: Seq<Seq<char>>) -> Option<Seq<StatView>> {
        dir_lookup(self.dirs@, dir, 0)
    }

    fn read_link(&self, link: &Link) -> (r: Result<PathBuf, ()>) {
        let mut i: usize = 0;
        while i < self.links.len()
            invariant
                i <= self.links@.len(),
                link_lookup(self.links@, link@, 0) == link_lookup(self.links@, link@, i as int),
            decreases self.links@.len() - i,
        {
            let e = &self.links[i];
            if e.0.path_eq(&link.0) {
                proof {
                    assert(link_lookup(self.links@, link@, i as int) == Some(e.1@));
                }
                return Ok(e.1.clone());
            }
            proof {
                assert(self.links@[i as int].0@ != link@);
            }
            i = i + 1;
        }
        Err(())
    }

    fn stat(&self, path: &PathBuf) -> (r: Result<Stat, ()>) {
        let mut i: usize = 0;
        while i < self.stats.len()
            invariant
                i <= self.stats@.len(),
                stat_lookup(self.stats@, path@, 0) == stat_lookup(self.stats@, path@, i as int),
            decreases self.stats@.len() - i,
        {
            let e = &self.stats[i];
            if e.0.path_eq(path) {
                proof {
                    assert(stat_lookup(self.stats@, path@, i as int) == Some(e.1@));
                }
                return Ok(e.1.clone());
            }
            proof {
                assert(self.stats@[i as int].0@ != path@);
            }
            i = i + 1;
        }
        Err(())
    }

    fn scandir(&self, dir: &Dir) -> (r: Result<Vec<Stat>, ()>) {
        let mut i: usize = 0;
        while i < self.dirs.len()
            invariant
                i <= self.dirs@.len(),
                dir_lookup(self.dirs@, dir@, 0) == dir_lookup(self.dirs@, dir@, i as int),
            decreases self.dirs@.len() - i,
        {
            let e = &self.dirs[i];
            if e.0.path_eq(&dir.0) {
                let listing = clone_stat_list(&e.1);
                proof {
                    assert(dir_lookup(self.dirs@, dir@, i as int) == Some(stat_views(e.1@)));
                }
                return Ok(listing);
            }
            proof {
                assert(self.dirs@[i as int].0@ != dir@);
            }
            i = i + 1;
        }
        Err(())
    }
}

} // verus!
