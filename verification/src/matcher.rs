use vstd::prelude::*;

verus! {

/// Whether the wildcard pattern `p` matches the component `s`.
/// A `*` in the pattern matches any sequence of characters (within the
/// one component); every other character matches itself.
pub open spec fn glob_match(p: Seq<char>, s: Seq<char>) -> bool
    decreases p.len() + s.len(),
{
    if p.len() == 0 {
        s.len() == 0
    } else if p[0] == '*' {
        glob_match(p.drop_first(), s) || (s.len() > 0 && glob_match(p, s.drop_first()))
    } else {
        s.len() > 0 && p[0] == s[0] && glob_match(p.drop_first(), s.drop_first())
    }
}

/// A pattern without wildcard characters matches exactly one component:
/// itself.
pub proof fn lemma_literal_pattern_matches_exactly(p: Seq<char>, s: Seq<char>)
    requires
        forall|k: int| 0 <= k < p.len() ==> p[k] != '*',
    ensures
        glob_match(p, s) <==> p == s,
    decreases p.len() + s.len(),
{
    if p.len() == 0 {
        if s.len() == 0 {
            assert(p =~= s);
        }
    } else {
        assert(p[0] != '*');
        if s.len() > 0 && p[0] == s[0] {
            assert(forall|k: int|
                0 <= k < p.drop_first().len() ==> #[trigger] p.drop_first()[k] == p[k + 1]);
            lemma_literal_pattern_matches_exactly(p.drop_first(), s.drop_first());
            if glob_match(p, s) {
                assert(p.drop_first() == s.drop_first());
                assert(forall|k: int|
                    0 <= k < s.drop_first().len() ==> #[trigger] s.drop_first()[k] == s[k + 1]);
                assert forall|k: int| 0 <= k < p.len() implies p[k] == s[k] by {
                    if k > 0 {
                        assert(p.drop_first()[k - 1] == s.drop_first()[k - 1]);
                    }
                }
                assert(p =~= s);
            }
            if p == s {
                assert(p.drop_first() =~= s.drop_first());
            }
        } else {
            assert(p != s);
        }
    }
}

fn glob_match_from(p: &str, s: &str, p_len: usize, s_len: usize, i: usize, j: usize) -> (r: bool)
    requires
        p_len == p@.len(),
        s_len == s@.len(),
        i <= p_len,
        j <= s_len,
    ensures
        r == glob_match(p@.skip(i as int), s@.skip(j as int)),
    decreases p_len - i + s_len - j,
{
    let ghost pv = p@.skip(i as int);
    let ghost sv = s@.skip(j as int);
    if i == p_len {
        proof {
            assert(pv.len() == 0);
        }
        j == s_len
    } else {
        proof {
            assert(pv.len() > 0);
            assert(pv[0] == p@[i as int]);
            assert(pv.drop_first() =~= p@.skip(i + 1));
            assert(sv.len() > 0 ==> sv[0] == s@[j as int]);
            assert(sv.len() > 0 ==> sv.drop_first() =~= s@.skip(j + 1));
        }
        let c = p.get_char(i);
        if c == '*' {
            if glob_match_from(p, s, p_len, s_len, i + 1, j) {
                true
            } else if j < s_len {
                glob_match_from(p, s, p_len, s_len, i, j + 1)
            } else {
                false
            }
        } else {
            if j == s_len {
                false
            } else if c == s.get_char(j) {
                glob_match_from(p, s, p_len, s_len, i + 1, j + 1)
            } else {
                false
            }
        }
    }
}

/// Whether the single-component wildcard pattern matches the component.
pub fn wildcard_matches(pattern: &String, component: &String) -> (r: bool)
    ensures
        r == glob_match(pattern@, component@),
{
    let p = pattern.as_str();
    let s = component.as_str();
    let p_len = p.unicode_len();
    let s_len = s.unicode_len();
    let r = glob_match_from(p, s, p_len, s_len, 0, 0);
    proof {
        assert(p@.skip(0) =~= p@);
        assert(s@.skip(0) =~= s@);
    }
    r
}

} // verus!
