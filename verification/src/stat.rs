use vstd::prelude::*;
use crate::path::PathBuf;

verus! {

/// A symlink, named by its path.
#[derive(Debug, PartialEq, Eq)]
pub struct Link(pub PathBuf);

/// A directory, named by its path.
#[derive(Debug, PartialEq, Eq)]
pub struct Dir(pub PathBuf);

/// A regular file, named by its path.
#[derive(Debug, PartialEq, Eq)]
pub struct File(pub PathBuf);

/// The classification of a single path as reported by link inspection
/// (symlinks are never followed to produce a `Stat`).
#[derive(Debug, PartialEq, Eq)]
pub enum Stat {
    Link(Link),
    Dir(Dir),
    File(File),
}

/// The mathematical value of a `Stat`: the classification together with
/// the components of the classified path.
#[verifier::ext_equal]
pub enum StatView {
    Link(Seq<Seq<char>>),
    Dir(Seq<Seq<char>>),
    File(Seq<Seq<char>>),
}

impl StatView {
    /// The path the classification speaks of.
    pub open spec fn path_of(self) -> Seq<Seq<char>> {
        match self {
            StatView::Link(p) => p,
            StatView::Dir(p) => p,
            StatView::File(p) => p,
        }
    }

    /// A classification fit for a final match: a directory or a file.
    pub open spec fn is_resolved(self) -> bool {
        !(self is Link)
    }
}

impl View for Link {
    type V = Seq<Seq<char>>;

    open spec fn view(&self) -> Seq<Seq<char>> {
        self.0@
    }
}

impl View for Dir {
    type V = Seq<Seq<char>>;

    open spec fn view(&self) -> Seq<Seq<char>> {
        self.0@
    }
}

impl View for File {
    type V = Seq<Seq<char>>;

    open spec fn view(&self) -> Seq<Seq<char>> {
        self.0@
    }
}

impl View for Stat {
    type V = StatView;

    open spec fn view(&self) -> StatView {
        match self {
            Stat::Link(l) => StatView::Link(l@),
            Stat::Dir(d) => StatView::Dir(d@),
            Stat::File(f) => StatView::File(f@),
        }
    }
}

impl Clone for Link {
    fn clone(&self) -> (res: Self)
        ensures
            res@ == self@,
    {
        Link(self.0.clone())
    }
}

impl Clone for Dir {
    fn clone(&self) -> (res: Self)
        ensures
            res@ == self@,
    {
        Dir(self.0.clone())
    }
}

impl Clone for File {
    fn clone(&self) -> (res: Self)
        ensures
            res@ == self@,
    {
        File(self.0.clone())
    }
}

impl Clone for Stat {
    fn clone(&self) -> (res: Self)
        ensures
            res@ == self@,
    {
        match self {
            Stat::Link(l) => Stat::Link(l.clone()),
            Stat::Dir(d) => Stat::Dir(d.clone()),
            Stat::File(f) => Stat::File(f.clone()),
        }
    }
}

impl Stat {
    /// The path the classification speaks of.
    pub fn path(&self) -> (r: &PathBuf)
        ensures
            r@ == self@.path_of(),
    {
        match self {
            Stat::Link(l) => &l.0,
            Stat::Dir(d) => &d.0,
            Stat::File(f) => &f.0,
        }
    }
}

/// A resolved match: the path as named in the original request, paired
/// with the canonical classification it resolves to.
#[derive(Debug, PartialEq, Eq)]
pub struct PathStat {
    /// The symbolic name of some filesystem path, which is context specific.
    pub path: PathBuf,
    /// The canonical `Stat` that underlies the path.
    pub stat: Stat,
}

/// The mathematical value of a `PathStat`.
#[verifier::ext_equal]
pub struct PathStatView {
    pub path: Seq<Seq<char>>,
    pub stat: StatView,
}

impl View for PathStat {
    type V = PathStatView;

    open spec fn view(&self) -> PathStatView {
        PathStatView { path: self.path@, stat: self.stat@ }
    }
}

impl Clone for PathStat {
    fn clone(&self) -> (res: Self)
        ensures
            res@ == self@,
    {
        PathStat { path: self.path.clone(), stat: self.stat.clone() }
    }
}

/// The outcome of walking a symlink chain.
#[derive(Debug, PartialEq, Eq)]
pub enum LinkExpansion {
    /// Successfully resolved to a file.
    File(File),
    /// Successfully resolved to a directory.
    Dir(Dir),
    /// Failed to resolve: the chain exceeded the expansion bound.
    Loop(String),
}

} // verus!
