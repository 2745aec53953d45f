use vstd::prelude::*;
use crate::path::PathBuf;
use crate::stat::{Dir, Link, LinkExpansion, Stat, StatView};

verus! {

/// The bound on symlink-chain resolution: a chain that does not reach a
/// file or directory within this many attempts is reported as a loop.
pub const MAX_LINK_EXPANSION_ATTEMPTS: usize = 64;

/// A context for filesystem operations, parameterized on a continuation
/// type `K`. An operation resulting in `K` indicates that more
/// information is needed to complete the operation.
///
/// Each implementation carries a mathematical model of what its
/// operations report: whenever a call completes, the returned value is
/// the model's answer. A call is always free to return a continuation
/// instead, whatever the model says.
pub trait FSContext<K> {
    /// The classification the backend reports for `path`, if it can say.
    spec fn stat_model(&self, path: Seq<Seq<char>>) -> Option<StatView>;

    /// The immediate (unresolved) target of the symlink at `link`,
    /// if the backend can say.
    spec fn link_model(&self, link: Seq<Seq<char>>) -> Option<Seq<Seq<char>>>;

    /// The link-inspected entries of the directory at `dir`, if the
    /// backend can say.
    spec fn scandir_model(&self, dir: Seq<Seq<char>>) -> Option<Seq<StatView>>;

    /// Reads the immediate target of a symlink.
    fn read_link(&self, link: &Link) -> (r: Result<PathBuf, K>)
        ensures
            r matches Ok(p) ==> self.link_model(link@) == Some(p@),
    ;

    /// Inspects a single path without following symlinks.
    fn stat(&self, path: &PathBuf) -> (r: Result<Stat, K>)
        ensures
            r matches Ok(s) ==> self.stat_model(path@) == Some(s@),
    ;

    /// Lists the link-inspected entries of a directory.
    fn scandir(&self, dir: &Dir) -> (r: Result<Vec<Stat>, K>)
        ensures
            r matches Ok(v) ==> self.scandir_model(dir@) == Some(stat_views(v@)),
    ;
}

/// The views of a sequence of classifications.
pub open spec fn stat_views(v: Seq<Stat>) -> Seq<StatView> {
    Seq::new(v.len(), |i: int| v[i]@)
}

/// The link reached from `link` after `n` successful resolution steps,
/// when the model answers every step and every step lands on a link.
pub open spec fn chain_link<K, C: FSContext<K>>(
    context: &C,
    link: Seq<Seq<char>>,
    n: nat,
) -> Option<Seq<Seq<char>>>
    decreases n,
{
    if n == 0 {
        Some(link)
    } else {
        match chain_link::<K, C>(context, link, (n - 1) as nat) {
            None => None,
            Some(l) => match context.link_model(l) {
                None => None,
                Some(t) => match context.stat_model(t) {
                    Some(StatView::Link(l2)) => Some(l2),
                    _ => None,
                },
            },
        }
    }
}

/// What the chain from `link` resolves to one step beyond the first `n`
/// link-to-link steps, per the model.
pub open spec fn resolved_after<K, C: FSContext<K>>(
    context: &C,
    link: Seq<Seq<char>>,
    n: nat,
) -> Option<StatView> {
    match chain_link::<K, C>(context, link, n) {
        None => None,
        Some(l) => match context.link_model(l) {
            None => None,
            Some(t) => context.stat_model(t),
        },
    }
}

/// The chain from `link` resolves to the non-link classification `stat`
/// within the expansion bound, per the model.
pub open spec fn link_resolves_to<K, C: FSContext<K>>(
    context: &C,
    link: Seq<Seq<char>>,
    stat: StatView,
) -> bool {
    exists|n: nat|
        n < MAX_LINK_EXPANSION_ATTEMPTS && resolved_after::<K, C>(context, link, n) == Some(stat)
}

/// Once the model chain breaks, it stays broken at every later length.
pub proof fn lemma_chain_none_after<K, C: FSContext<K>>(
    context: &C,
    link: Seq<Seq<char>>,
    m: nat,
    k: nat,
)
    requires
        chain_link::<K, C>(context, link, m) is None,
        m <= k,
    ensures
        chain_link::<K, C>(context, link, k) is None,
    decreases k - m,
{
    if k > m {
        lemma_chain_none_after::<K, C>(context, link, m, (k - 1) as nat);
    }
}

/// A chain that resolves to a directory or file within the bound cannot
/// also make the full run of link-to-link steps.
pub proof fn lemma_resolution_excludes_loop<K, C: FSContext<K>>(
    context: &C,
    link: Seq<Seq<char>>,
    n: nat,
    s: StatView,
)
    requires
        n < MAX_LINK_EXPANSION_ATTEMPTS,
        resolved_after::<K, C>(context, link, n) == Some(s),
        s.is_resolved(),
    ensures
        chain_link::<K, C>(context, link, MAX_LINK_EXPANSION_ATTEMPTS as nat) is None,
{
    assert(chain_link::<K, C>(context, link, (n + 1) as nat) is None);
    lemma_chain_none_after::<K, C>(
        context,
        link,
        (n + 1) as nat,
        MAX_LINK_EXPANSION_ATTEMPTS as nat,
    );
}

/// The non-link classification a chain resolves to within the bound is
/// unique: the model walk is deterministic.
pub proof fn lemma_resolution_unique<K, C: FSContext<K>>(
    context: &C,
    link: Seq<Seq<char>>,
    s1: StatView,
    s2: StatView,
)
    requires
        link_resolves_to::<K, C>(context, link, s1),
        link_resolves_to::<K, C>(context, link, s2),
        s1.is_resolved(),
        s2.is_resolved(),
    ensures
        s1 == s2,
{
    let n1 = choose|n: nat|
        n < MAX_LINK_EXPANSION_ATTEMPTS && resolved_after::<K, C>(context, link, n) == Some(s1);
    let n2 = choose|n: nat|
        n < MAX_LINK_EXPANSION_ATTEMPTS && resolved_after::<K, C>(context, link, n) == Some(s2);
    if n1 < n2 {
        assert(chain_link::<K, C>(context, link, (n1 + 1) as nat) is None);
        lemma_chain_none_after::<K, C>(context, link, (n1 + 1) as nat, n2);
        assert(false);
    } else if n2 < n1 {
        assert(chain_link::<K, C>(context, link, (n2 + 1) as nat) is None);
        lemma_chain_none_after::<K, C>(context, link, (n2 + 1) as nat, n1);
        assert(false);
    }
}

/// Recursively expands a symlink to an underlying non-link classification.
///
/// Walks the chain of links: reads each link's target and inspects it;
/// a link continues the walk, a directory or file ends it. After
/// `MAX_LINK_EXPANSION_ATTEMPTS` read-and-inspect attempts that all land
/// on links, the walk reports a loop: a normal, reportable outcome that
/// guards against symlink cycles. A continuation from either primitive
/// is propagated immediately.
pub fn expand_link<K, C: FSContext<K>>(link: &Link, context: &C) -> (r: Result<LinkExpansion, K>)
    ensures
        r matches Ok(LinkExpansion::Dir(d)) ==> link_resolves_to::<K, C>(
            context,
            link@,
            StatView::Dir(d@),
        ),
        r matches Ok(LinkExpansion::File(f)) ==> link_resolves_to::<K, C>(
            context,
            link@,
            StatView::File(f@),
        ),
        r matches Ok(LinkExpansion::Loop(_)) ==> chain_link::<K, C>(
            context,
            link@,
            MAX_LINK_EXPANSION_ATTEMPTS as nat,
        ) is Some,
{
    let mut cur: Link = link.clone();
    let mut attempts: usize = 0;
    loop
        invariant
            attempts <= MAX_LINK_EXPANSION_ATTEMPTS,
            chain_link::<K, C>(context, link@, attempts as nat) == Some(cur@),
        decreases MAX_LINK_EXPANSION_ATTEMPTS - attempts,
    {
        if attempts == MAX_LINK_EXPANSION_ATTEMPTS {
            return Ok(
                LinkExpansion::Loop(
                    "encountered a symlink loop while expanding a link".to_owned(),
                ),
            );
        }

        // Read the link and inspect the destination.
        let target = match context.read_link(&cur) {
            Ok(p) => p,
            Err(k) => return Err(k),
        };
        match context.stat(&target) {
            Ok(Stat::Link(l)) => {
                // The link pointed to another link. Continue.
                proof {
                    assert(chain_link::<K, C>(context, link@, (attempts + 1) as nat) == Some(l@));
                }
                cur = l;
                attempts = attempts + 1;
            },
            Ok(Stat::Dir(d)) => {
                proof {
                    assert(resolved_after::<K, C>(context, link@, attempts as nat) == Some(
                        StatView::Dir(d@),
                    ));
                }
                return Ok(LinkExpansion::Dir(d));
            },
            Ok(Stat::File(f)) => {
                proof {
                    assert(resolved_after::<K, C>(context, link@, attempts as nat) == Some(
                        StatView::File(f@),
                    ));
                }
                return Ok(LinkExpansion::File(f));
            },
            Err(k) => return Err(k),
        }
    }
}

} // verus!
