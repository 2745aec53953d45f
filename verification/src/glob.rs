use vstd::prelude::*;
use crate::path::{join, PathBuf};
use crate::stat::{Dir, PathStat, PathStatView, Stat, StatView};

verus! {

/// The recursive wildcard component.
pub open spec fn doublestar() -> Seq<char> {
    "**"@
}

/// The single-component wildcard.
pub open spec fn singlestar() -> Seq<char> {
    "*"@
}

/// The current-directory component.
pub open spec fn dot() -> Seq<char> {
    "."@
}

/// The components of `v`, each as its character sequence.
pub open spec fn strings_view(v: Seq<String>) -> Seq<Seq<char>> {
    Seq::new(v.len(), |i: int| v[i]@)
}

/// The views of a sequence of paths.
pub open spec fn paths_view(v: Seq<PathBuf>) -> Seq<Seq<Seq<char>>> {
    Seq::new(v.len(), |i: int| v[i]@)
}

/// One unit of a parsed glob pattern.
#[derive(Debug, PartialEq, Eq)]
pub enum PathGlob {
    /// Matches the base directory itself.
    Root,
    /// Matches entries of `canonical_dir` whose basename satisfies
    /// `wildcard`; such matches are leaves.
    Wildcard { canonical_dir: Dir, symbolic_path: PathBuf, wildcard: String },
    /// Matches directory entries of `canonical_dir` satisfying `wildcard`,
    /// then applies `remainder` inside each matched directory.
    DirWildcard { canonical_dir: Dir, symbolic_path: PathBuf, wildcard: String, remainder: PathBuf },
}

/// The mathematical value of a `PathGlob`.
#[verifier::ext_equal]
pub enum PathGlobView {
    Root,
    Wildcard { canonical_dir: Seq<Seq<char>>, symbolic_path: Seq<Seq<char>>, wildcard: Seq<char> },
    DirWildcard {
        canonical_dir: Seq<Seq<char>>,
        symbolic_path: Seq<Seq<char>>,
        wildcard: Seq<char>,
        remainder: Seq<Seq<char>>,
    },
}

impl View for PathGlob {
    type V = PathGlobView;

    open spec fn view(&self) -> PathGlobView {
        match self {
            PathGlob::Root => PathGlobView::Root,
            PathGlob::Wildcard { canonical_dir, symbolic_path, wildcard } => PathGlobView::Wildcard {
                canonical_dir: canonical_dir@,
                symbolic_path: symbolic_path@,
                wildcard: wildcard@,
            },
            PathGlob::DirWildcard {
                canonical_dir,
                symbolic_path,
                wildcard,
                remainder,
            } => PathGlobView::DirWildcard {
                canonical_dir: canonical_dir@,
                symbolic_path: symbolic_path@,
                wildcard: wildcard@,
                remainder: remainder@,
            },
        }
    }
}

impl Clone for PathGlob {
    fn clone(&self) -> (res: Self)
        ensures
            res@ == self@,
    {
        match self {
            PathGlob::Root => PathGlob::Root,
            PathGlob::Wildcard { canonical_dir, symbolic_path, wildcard } => PathGlob::Wildcard {
                canonical_dir: canonical_dir.clone(),
                symbolic_path: symbolic_path.clone(),
                wildcard: wildcard.clone(),
            },
            PathGlob::DirWildcard {
                canonical_dir,
                symbolic_path,
                wildcard,
                remainder,
            } => PathGlob::DirWildcard {
                canonical_dir: canonical_dir.clone(),
                symbolic_path: symbolic_path.clone(),
                wildcard: wildcard.clone(),
                remainder: remainder.clone(),
            },
        }
    }
}

impl PathGlob {
    /// The one match that `Root` yields: the empty symbolic path,
    /// classified as the directory with the empty path.
    pub fn root_stat() -> (r: PathStat)
        ensures
            r@ == (PathStatView {
                path: Seq::<Seq<char>>::empty(),
                stat: StatView::Dir(Seq::<Seq<char>>::empty()),
            }),
    {
        PathStat { path: PathBuf::new(), stat: Stat::Dir(Dir(PathBuf::new())) }
    }

    fn wildcard(canonical_dir: Dir, symbolic_path: PathBuf, wildcard: String) -> (r: PathGlob)
        ensures
            r@ == (PathGlobView::Wildcard {
                canonical_dir: canonical_dir@,
                symbolic_path: symbolic_path@,
                wildcard: wildcard@,
            }),
    {
        PathGlob::Wildcard { canonical_dir, symbolic_path, wildcard }
    }

    fn dir_wildcard(
        canonical_dir: Dir,
        symbolic_path: PathBuf,
        wildcard: String,
        remainder: PathBuf,
    ) -> (r: PathGlob)
        ensures
            r@ == (PathGlobView::DirWildcard {
                canonical_dir: canonical_dir@,
                symbolic_path: symbolic_path@,
                wildcard: wildcard@,
                remainder: remainder@,
            }),
    {
        PathGlob::DirWildcard { canonical_dir, symbolic_path, wildcard, remainder }
    }
}

/// The views of a sequence of glob units.
pub open spec fn glob_seq_view(v: Seq<PathGlob>) -> Seq<PathGlobView> {
    Seq::new(v.len(), |i: int| v[i]@)
}

/// `parts` with every run of consecutive `**` components collapsed to
/// a single `**`: repeated doublestars are redundant.
pub open spec fn normalize_parts(parts: Seq<Seq<char>>) -> Seq<Seq<char>>
    decreases parts.len(),
{
    if parts.len() == 0 {
        parts
    } else if parts.len() >= 2 && parts[0] == doublestar() && parts[1] == doublestar() {
        normalize_parts(parts.drop_first())
    } else {
        seq![parts[0]] + normalize_parts(parts.drop_first())
    }
}

/// Normalization never empties a pattern and never lengthens it.
pub proof fn lemma_normalize_len(parts: Seq<Seq<char>>)
    ensures
        parts.len() > 0 ==> normalize_parts(parts).len() > 0,
        normalize_parts(parts).len() <= parts.len(),
    decreases parts.len(),
{
    if parts.len() > 0 {
        lemma_normalize_len(parts.drop_first());
    }
}

/// Normalization keeps the first component of a pattern.
pub proof fn lemma_normalize_first(parts: Seq<Seq<char>>)
    requires
        parts.len() > 0,
    ensures
        normalize_parts(parts).len() > 0,
        normalize_parts(parts)[0] == parts[0],
    decreases parts.len(),
{
    if parts.len() >= 2 && parts[0] == doublestar() && parts[1] == doublestar() {
        lemma_normalize_first(parts.drop_first());
    } else {
        lemma_normalize_len(parts.drop_first());
    }
}

/// Doublestar collapsing is idempotent: normalizing a pattern twice
/// gives the same components as normalizing it once.
pub proof fn lemma_normalize_idempotent(parts: Seq<Seq<char>>)
    ensures
        normalize_parts(normalize_parts(parts)) == normalize_parts(parts),
    decreases parts.len(),
{
    if parts.len() == 0 {
    } else if parts.len() >= 2 && parts[0] == doublestar() && parts[1] == doublestar() {
        lemma_normalize_idempotent(parts.drop_first());
    } else {
        let rest = parts.drop_first();
        lemma_normalize_idempotent(rest);
        let q = seq![parts[0]] + normalize_parts(rest);
        assert(q[0] == parts[0]);
        assert(q.drop_first() =~= normalize_parts(rest));
        if q.len() >= 2 && q[0] == doublestar() && q[1] == doublestar() {
            lemma_normalize_first(rest);
            assert(q[1] == normalize_parts(rest)[0]);
            assert(false);
        }
        assert(normalize_parts(q) == seq![q[0]] + normalize_parts(q.drop_first()));
    }
}

/// A `**` inserted beside an existing `**` is redundant: the normalized
/// components do not change.
pub proof fn lemma_doublestar_insert(parts: Seq<Seq<char>>, i: int)
    requires
        0 <= i < parts.len(),
        parts[i] == doublestar(),
    ensures
        normalize_parts(parts.insert(i, doublestar())) == normalize_parts(parts),
    decreases parts.len(),
{
    let q = parts.insert(i, doublestar());
    assert(q[i] == doublestar());
    assert(q[i + 1] == parts[i]);
    if i == 0 {
        assert(q.drop_first() =~= parts);
    } else {
        let dropped = parts.drop_first();
        assert(q[0] == parts[0]);
        assert(q.drop_first() =~= dropped.insert(i - 1, doublestar()));
        assert(dropped[i - 1] == parts[i]);
        if parts.len() >= 2 && parts[0] == doublestar() && parts[1] == doublestar() {
            assert(q.len() >= 2 && q[0] == doublestar() && q[1] == doublestar());
            lemma_doublestar_insert(dropped, i - 1);
        } else if i == 1 && parts[0] == doublestar() {
            assert(q.len() >= 2 && q[0] == doublestar() && q[1] == doublestar());
            assert(q.drop_first() =~= parts);
        } else {
            assert(i >= 2 ==> q[1] == parts[1]);
            assert(!(q.len() >= 2 && q[0] == doublestar() && q[1] == doublestar()));
            lemma_doublestar_insert(dropped, i - 1);
        }
    }
}

/// A pattern parses to the same glob units when a redundant `**` is
/// inserted beside an existing `**`.
pub proof fn lemma_parse_doublestar_insert(
    canonical_dir: Seq<Seq<char>>,
    symbolic_path: Seq<Seq<char>>,
    filespec: Seq<Seq<char>>,
    i: int,
)
    requires
        0 <= i < filespec.len(),
        filespec[i] == doublestar(),
    ensures
        parse_units(canonical_dir, symbolic_path, filespec.insert(i, doublestar())) == parse_units(
            canonical_dir,
            symbolic_path,
            filespec,
        ),
{
    lemma_doublestar_insert(filespec, i);
}

/// The glob units that one pattern parses to, given the base directory
/// and the symbolic path accumulated so far.
pub open spec fn parse_units(
    canonical_dir: Seq<Seq<char>>,
    symbolic_path: Seq<Seq<char>>,
    filespec: Seq<Seq<char>>,
) -> Seq<PathGlobView> {
    let parts = normalize_parts(filespec);
    if canonical_dir == seq![dot()] && parts == seq![dot()] {
        seq![PathGlobView::Root]
    } else if parts.len() > 0 && parts[0] == doublestar() {
        if parts.len() == 1 {
            seq![
                PathGlobView::DirWildcard {
                    canonical_dir,
                    symbolic_path,
                    wildcard: singlestar(),
                    remainder: seq![doublestar()],
                },
                PathGlobView::Wildcard { canonical_dir, symbolic_path, wildcard: singlestar() },
            ]
        } else if parts.len() == 2 {
            seq![
                PathGlobView::DirWildcard {
                    canonical_dir,
                    symbolic_path,
                    wildcard: singlestar(),
                    remainder: parts,
                },
                PathGlobView::Wildcard { canonical_dir, symbolic_path, wildcard: parts[1] },
            ]
        } else {
            seq![
                PathGlobView::DirWildcard {
                    canonical_dir,
                    symbolic_path,
                    wildcard: singlestar(),
                    remainder: parts,
                },
                PathGlobView::DirWildcard {
                    canonical_dir,
                    symbolic_path,
                    wildcard: parts[1],
                    remainder: parts.skip(2),
                },
            ]
        }
    } else if parts.len() == 1 {
        seq![PathGlobView::Wildcard { canonical_dir, symbolic_path, wildcard: parts[0] }]
    } else {
        seq![
            PathGlobView::DirWildcard {
                canonical_dir,
                symbolic_path,
                wildcard: parts[0],
                remainder: parts.skip(1),
            },
        ]
    }
}

/// A request yields the same glob sequence when one of its patterns
/// gains a redundant `**` beside an existing `**`.
pub proof fn lemma_create_doublestar_insert(
    relative_to: Seq<Seq<char>>,
    filespecs: Seq<Seq<Seq<char>>>,
    n: int,
    i: int,
)
    requires
        0 <= n < filespecs.len(),
        0 <= i < filespecs[n].len(),
        filespecs[n][i] == doublestar(),
    ensures
        create_units(
            relative_to,
            filespecs.update(n, filespecs[n].insert(i, doublestar())),
        ) == create_units(relative_to, filespecs),
    decreases filespecs.len(),
{
    let updated = filespecs.update(n, filespecs[n].insert(i, doublestar()));
    if n == 0 {
        lemma_parse_doublestar_insert(relative_to, relative_to, filespecs[0], i);
        assert(updated[0] == filespecs[0].insert(i, doublestar()));
        assert(updated.drop_first() =~= filespecs.drop_first());
    } else {
        assert(updated[0] == filespecs[0]);
        let tail = filespecs.drop_first();
        assert(tail[n - 1] == filespecs[n]);
        lemma_create_doublestar_insert(relative_to, tail, n - 1, i);
        assert(updated.drop_first() =~= tail.update(n - 1, tail[n - 1].insert(i, doublestar())));
    }
}

/// A glob unit the expansion can work on: a `DirWildcard` always carries
/// a nonempty remainder, as the parser guarantees.
pub open spec fn glob_wf(u: PathGlobView) -> bool {
    u matches PathGlobView::DirWildcard { remainder, .. } ==> remainder.len() > 0
}

/// Every unit the parser yields is fit to work on.
pub proof fn lemma_parse_units_wf(
    canonical_dir: Seq<Seq<char>>,
    symbolic_path: Seq<Seq<char>>,
    filespec: Seq<Seq<char>>,
)
    requires
        filespec.len() > 0,
    ensures
        forall|k: int|
            0 <= k < parse_units(canonical_dir, symbolic_path, filespec).len() ==> glob_wf(
                #[trigger] parse_units(canonical_dir, symbolic_path, filespec)[k],
            ),
{
    lemma_normalize_len(filespec);
}

/// The glob units of a whole request: every pattern parsed against the
/// base directory, in input order.
pub open spec fn create_units(
    relative_to: Seq<Seq<char>>,
    filespecs: Seq<Seq<Seq<char>>>,
) -> Seq<PathGlobView>
    decreases filespecs.len(),
{
    if filespecs.len() == 0 {
        Seq::<PathGlobView>::empty()
    } else {
        parse_units(relative_to, relative_to, filespecs[0]) + create_units(
            relative_to,
            filespecs.drop_first(),
        )
    }
}

/// An ordered sequence of glob units produced by parsing one or more
/// patterns; derivation order is kept, nothing is deduplicated.
#[derive(Debug, PartialEq, Eq)]
pub struct PathGlobs(pub Vec<PathGlob>);

impl View for PathGlobs {
    type V = Seq<PathGlobView>;

    open spec fn view(&self) -> Seq<PathGlobView> {
        glob_seq_view(self.0@)
    }
}

fn str_component(text: &str) -> (r: String)
    ensures
        r@ == text@,
{
    text.to_owned()
}

fn is_component(s: &String, text: &str) -> (r: bool)
    ensures
        r == (s@ == text@),
{
    let t: String = text.to_owned();
    *s == t
}

impl PathGlobs {
    /// Eliminates consecutive `**`s to avoid repetitive traversing.
    pub fn normalize_doublestar(parts: &Vec<String>) -> (r: Vec<String>)
        ensures
            strings_view(r@) == normalize_parts(strings_view(parts@)),
    {
        let ghost full = strings_view(parts@);
        let mut out: Vec<String> = Vec::new();
        let mut i: usize = 0;
        proof {
            assert(full.skip(0) =~= full);
            assert(strings_view(out@) + normalize_parts(full) =~= normalize_parts(full));
        }
        while i < parts.len()
            invariant
                i <= parts@.len(),
                full == strings_view(parts@),
                strings_view(out@) + normalize_parts(full.skip(i as int)) == normalize_parts(full),
            decreases parts@.len() - i,
        {
            let ghost rest = full.skip(i as int);
            proof {
                assert(rest.len() > 0);
                assert(rest[0] == full[i as int]);
                assert(rest.drop_first() =~= full.skip(i + 1));
                assert(rest[0] == parts@[i as int]@);
                assert(rest.len() >= 2 ==> rest[1] == parts@[i + 1]@);
            }
            if is_component(&parts[i], "**") && i + 1 < parts.len() && is_component(
                &parts[i + 1],
                "**",
            ) {
                proof {
                    assert(normalize_parts(rest) == normalize_parts(full.skip(i + 1)));
                }
            } else {
                let ghost before = strings_view(out@);
                out.push(parts[i].clone());
                proof {
                    assert(strings_view(out@) =~= before.push(full[i as int]));
                    assert(normalize_parts(rest) == seq![rest[0]] + normalize_parts(
                        rest.drop_first(),
                    ));
                    assert(strings_view(out@) + normalize_parts(full.skip(i + 1)) =~= before
                        + normalize_parts(rest));
                }
            }
            i = i + 1;
        }
        proof {
            assert(full.skip(parts@.len() as int) =~= Seq::<Seq<char>>::empty());
            assert(normalize_parts(full.skip(parts@.len() as int)) =~= Seq::<Seq<char>>::empty());
            assert(strings_view(out@) =~= strings_view(out@) + normalize_parts(
                full.skip(parts@.len() as int),
            ));
        }
        out
    }

    /// Given one pattern, parses it to a series of glob units.
    pub fn parse(canonical_dir: &Dir, symbolic_path: &PathBuf, filespec: &PathBuf) -> (r: Vec<
        PathGlob,
    >)
        requires
            filespec@.len() > 0,
        ensures
            glob_seq_view(r@) == parse_units(canonical_dir@, symbolic_path@, filespec@),
    {
        proof {
            assert(strings_view(filespec.components@) =~= filespec@);
            lemma_normalize_len(filespec@);
        }
        let parts = PathGlobs::normalize_doublestar(&filespec.components);
        let ghost nparts = normalize_parts(filespec@);
        proof {
            assert(strings_view(parts@) == nparts);
            assert(nparts.len() > 0);
            assert(parts@.len() == nparts.len());
            assert(parts@[0]@ == nparts[0]);
            assert(nparts.len() >= 2 ==> parts@[1]@ == nparts[1]);
        }
        let dir_is_dot = canonical_dir.0.components.len() == 1 && is_component(
            &canonical_dir.0.components[0],
            ".",
        );
        proof {
            assert(canonical_dir.0.components@.len() == 1 && canonical_dir.0.components@[0]@
                == dot() ==> canonical_dir@ =~= seq![dot()]);
            assert(canonical_dir@ == seq![dot()] ==> canonical_dir@.len() == 1 && canonical_dir@[0]
                == dot());
        }
        let mut r: Vec<PathGlob> = Vec::new();
        if dir_is_dot && parts.len() == 1 && is_component(&parts[0], ".") {
            proof {
                assert(nparts =~= seq![dot()]);
            }
            r.push(PathGlob::Root);
        } else {
            proof {
                assert(parts@.len() == 1 && parts@[0]@ == dot() ==> nparts =~= seq![dot()]);
                assert(!(dir_is_dot && parts@.len() == 1 && parts@[0]@ == dot()) ==> !(
                canonical_dir@ == seq![dot()] && nparts == seq![dot()]));
            }
            if is_component(&parts[0], "**") {
                if parts.len() == 1 {
                    let mut ds: Vec<String> = Vec::new();
                    ds.push(str_component("**"));
                    let remainder = PathBuf { components: ds };
                    proof {
                        assert(remainder@ =~= seq![doublestar()]);
                    }
                    r.push(PathGlob::dir_wildcard(
                        canonical_dir.clone(),
                        symbolic_path.clone(),
                        str_component("*"),
                        remainder,
                    ));
                    r.push(PathGlob::wildcard(
                        canonical_dir.clone(),
                        symbolic_path.clone(),
                        str_component("*"),
                    ));
                } else if parts.len() == 2 {
                    let remainder = join(&parts, 0);
                    proof {
                        assert(remainder@ =~= nparts);
                    }
                    r.push(PathGlob::dir_wildcard(
                        canonical_dir.clone(),
                        symbolic_path.clone(),
                        str_component("*"),
                        remainder,
                    ));
                    r.push(PathGlob::wildcard(
                        canonical_dir.clone(),
                        symbolic_path.clone(),
                        parts[1].clone(),
                    ));
                } else {
                    let remainder = join(&parts, 0);
                    let tail = join(&parts, 2);
                    proof {
                        assert(remainder@ =~= nparts);
                        assert(tail@ =~= nparts.skip(2));
                    }
                    r.push(PathGlob::dir_wildcard(
                        canonical_dir.clone(),
                        symbolic_path.clone(),
                        str_component("*"),
                        remainder,
                    ));
                    r.push(PathGlob::dir_wildcard(
                        canonical_dir.clone(),
                        symbolic_path.clone(),
                        parts[1].clone(),
                        tail,
                    ));
                }
            } else if parts.len() == 1 {
                r.push(PathGlob::wildcard(
                    canonical_dir.clone(),
                    symbolic_path.clone(),
                    parts[0].clone(),
                ));
            } else {
                let tail = join(&parts, 1);
                proof {
                    assert(tail@ =~= nparts.skip(1));
                }
                r.push(PathGlob::dir_wildcard(
                    canonical_dir.clone(),
                    symbolic_path.clone(),
                    parts[0].clone(),
                    tail,
                ));
            }
        }
        proof {
            assert(glob_seq_view(r@) =~~= parse_units(canonical_dir@, symbolic_path@, filespec@));
        }
        r
    }

    /// Parses every pattern against the base directory and flattens all
    /// resulting glob units, in input order.
    pub fn create(relative_to: &Dir, filespecs: Vec<PathBuf>) -> (r: PathGlobs)
        requires
            forall|i: int| 0 <= i < filespecs@.len() ==> (#[trigger] filespecs@[i])@.len() > 0,
        ensures
            r@ == create_units(relative_to@, paths_view(filespecs@)),
    {
        let ghost specs = paths_view(filespecs@);
        let mut out: Vec<PathGlob> = Vec::new();
        let mut i: usize = 0;
        proof {
            assert(specs.skip(0) =~= specs);
            assert(glob_seq_view(out@) + create_units(relative_to@, specs) =~= create_units(
                relative_to@,
                specs,
            ));
        }
        while i < filespecs.len()
            invariant
                i <= filespecs@.len(),
                specs == paths_view(filespecs@),
                forall|k: int| 0 <= k < filespecs@.len() ==> (#[trigger] filespecs@[k])@.len() > 0,
                glob_seq_view(out@) + create_units(relative_to@, specs.skip(i as int))
                    == create_units(relative_to@, specs),
            decreases filespecs@.len() - i,
        {
            let ghost rest = specs.skip(i as int);
            proof {
                assert(rest[0] == filespecs@[i as int]@);
                assert(rest.drop_first() =~= specs.skip(i + 1));
            }
            let mut units = PathGlobs::parse(relative_to, &relative_to.0, &filespecs[i]);
            let ghost before = glob_seq_view(out@);
            let ghost parsed = glob_seq_view(units@);
            out.append(&mut units);
            proof {
                assert(glob_seq_view(out@) =~= before + parsed);
                assert(create_units(relative_to@, rest) == parse_units(
                    relative_to@,
                    relative_to@,
                    rest[0],
                ) + create_units(relative_to@, rest.drop_first()));
                assert(glob_seq_view(out@) + create_units(relative_to@, specs.skip(i + 1)) =~=
                before + create_units(relative_to@, rest));
            }
            i = i + 1;
        }
        proof {
            assert(specs.skip(filespecs@.len() as int) =~= Seq::<Seq<Seq<char>>>::empty());
            assert(glob_seq_view(out@) =~= glob_seq_view(out@) + create_units(
                relative_to@,
                specs.skip(filespecs@.len() as int),
            ));
        }
        PathGlobs(out)
    }
}

} // verus!
