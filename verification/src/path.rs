//! Path normalization: every route template and every request path is
//! brought to the canonical shape `/…/` before it is compiled or matched.

use vstd::prelude::*;

verus! {

/// The sequence with the leading run of `'/'` characters removed.
pub open spec fn drop_leading_slashes(s: Seq<char>) -> Seq<char>
    decreases s.len(),
{
    if s.len() > 0 && s[0] == '/' {
        drop_leading_slashes(s.drop_first())
    } else {
        s
    }
}

/// The sequence with the trailing run of `'/'` characters removed.
pub open spec fn drop_trailing_slashes(s: Seq<char>) -> Seq<char>
    decreases s.len(),
{
    if s.len() > 0 && s.last() == '/' {
        drop_trailing_slashes(s.drop_last())
    } else {
        s
    }
}

/// A path in canonical shape: one leading and one trailing separator
/// around the fully trimmed body.
pub open spec fn standardized(s: Seq<char>) -> Seq<char> {
    seq!['/'] + drop_trailing_slashes(drop_leading_slashes(s)) + seq!['/']
}

proof fn lemma_drop_leading_is_skip(s: Seq<char>, i: int)
    requires
        0 <= i <= s.len(),
        forall|k: int| 0 <= k < i ==> s[k] == '/',
        i < s.len() ==> s[i] != '/',
    ensures
        drop_leading_slashes(s) =~= s.skip(i),
    decreases i,
{
    if i == 0 {
        if s.len() > 0 {
            assert(s[0] != '/');
        }
        assert(drop_leading_slashes(s) =~= s.skip(0));
    } else {
        assert(s[0] == '/');
        let t = s.drop_first();
        assert(forall|k: int| 0 <= k < i - 1 ==> t[k] == s[k + 1] && s[k + 1] == '/');
        lemma_drop_leading_is_skip(t, i - 1);
        assert(t.skip(i - 1) =~= s.skip(i));
    }
}

proof fn lemma_drop_trailing_is_take(s: Seq<char>, j: int)
    requires
        0 <= j <= s.len(),
        forall|k: int| j <= k < s.len() ==> s[k] == '/',
        j > 0 ==> s[j - 1] != '/',
    ensures
        drop_trailing_slashes(s) =~= s.take(j),
    decreases s.len() - j,
{
    if j == s.len() {
        if s.len() > 0 {
            assert(s.last() != '/');
        }
        assert(drop_trailing_slashes(s) =~= s.take(j));
    } else {
        assert(s.last() == '/');
        let t = s.drop_last();
        assert(forall|k: int| j <= k < t.len() ==> t[k] == s[k] && s[k] == '/');
        lemma_drop_trailing_is_take(t, j);
        assert(t.take(j) =~= s.take(j));
    }
}

/// The body of a path after trimming separators on both sides, as a
/// subrange of the original: used to relate the scanning loops below to
/// the recursive trimming functions.
proof fn lemma_trimmed_is_subrange(s: Seq<char>, i: int, j: int)
    requires
        0 <= i <= j <= s.len(),
        forall|k: int| 0 <= k < i ==> s[k] == '/',
        i < s.len() ==> s[i] != '/',
        forall|k: int| j <= k < s.len() ==> s[k] == '/',
        j > i ==> s[j - 1] != '/',
    ensures
        drop_trailing_slashes(drop_leading_slashes(s)) =~= s.subrange(i, j),
    decreases 0int,
{
    lemma_drop_leading_is_skip(s, i);
    let t = s.skip(i);
    assert(forall|k: int| j - i <= k < t.len() ==> t[k] == s[k + i] && s[k + i] == '/');
    if j > i {
        assert(t[j - i - 1] == s[j - 1]);
    }
    lemma_drop_trailing_is_take(t, j - i);
    assert(t.take(j - i) =~= s.subrange(i, j));
}

/// The bounds of the body of `s` once separators are trimmed from both
/// ends: the body is `s@.subrange(r.0, r.1)`.
fn slash_trim_bounds(s: &str) -> (r: (usize, usize))
    ensures
        0 <= r.0 <= r.1 <= s@.len(),
        s@.subrange(r.0 as int, r.1 as int) == drop_trailing_slashes(drop_leading_slashes(s@)),
{
    let n = s.unicode_len();
    let mut i: usize = 0;
    while i < n && s.get_char(i) == '/'
        invariant
            0 <= i <= n == s@.len(),
            forall|k: int| 0 <= k < i ==> s@[k] == '/',
        decreases n - i,
    {
        i = i + 1;
    }
    let mut j: usize = n;
    while j > i && s.get_char(j - 1) == '/'
        invariant
            i <= j <= n == s@.len(),
            forall|k: int| j <= k < n ==> s@[k] == '/',
        decreases j,
    {
        j = j - 1;
    }
    proof {
        lemma_trimmed_is_subrange(s@, i as int, j as int);
    }
    (i, j)
}

/// Normalizes a raw path to begin and end with exactly one separator:
/// `a/b`, `/a/b` and `a/b///` all become `/a/b/`.
pub fn standardize_path(raw_path: &str) -> (r: String)
    ensures
        r@ == standardized(raw_path@),
{
    let (i, j) = slash_trim_bounds(raw_path);
    let mut r = String::new();
    r.append("/");
    r.append(raw_path.substring_char(i, j));
    r.append("/");
    proof {
        reveal_strlit("/");
        assert(r@ =~= standardized(raw_path@));
    }
    r
}

/// What joining a list of paths produces: each part trimmed of leading
/// and trailing separators, the parts glued with single separators.
pub open spec fn joined_paths(parts: Seq<Seq<char>>) -> Seq<char>
    decreases parts.len(),
{
    if parts.len() == 0 {
        Seq::empty()
    } else if parts.len() == 1 {
        drop_trailing_slashes(drop_leading_slashes(parts[0]))
    } else {
        drop_trailing_slashes(drop_leading_slashes(parts[0])) + seq!['/'] + joined_paths(
            parts.drop_first(),
        )
    }
}

/// Joins path fragments with single separators, trimming redundant
/// separators from the ends of each fragment.
pub fn join_path(paths: &[&str]) -> (r: String)
    ensures
        r@ == joined_paths(paths.deep_view()),
{
    let ghost parts = paths.deep_view();
    let mut r = String::new();
    let n = paths.len();
    let mut i: usize = 0;
    while i < n
        invariant
            0 <= i <= n == paths.len(),
            parts == paths.deep_view(),
            parts.len() == n,
            i == 0 ==> r@ == Seq::<char>::empty(),
            0 < i < n ==> r@ == joined_paths(parts.take(i as int)) + seq!['/'],
            i == n ==> r@ == joined_paths(parts),
        decreases n - i,
    {
        let p = paths[i];
        let (a, b) = slash_trim_bounds(p);
        r.append(p.substring_char(a, b));
        proof {
            assert(parts[i as int] == p@);
        }
        if i + 1 < n {
            r.append("/");
        }
        proof {
            reveal_strlit("/");
            lemma_joined_take_step(parts, i as int);
            if i + 1 < n {
                assert(r@ =~= joined_paths(parts.take(i as int + 1)) + seq!['/']);
            } else {
                assert(parts.take(i as int + 1) =~= parts);
                assert(r@ =~= joined_paths(parts));
            }
        }
        i = i + 1;
    }
    if n == 0 {
        proof {
            assert(r@ =~= joined_paths(parts));
        }
    }
    r
}

/// Unrolls `joined_paths` at the front: what the first `i + 1` parts
/// produce is what the first `i` produce, a separator, and the trimmed
/// part `i` (with the degenerate forms at the ends).
proof fn lemma_joined_take_step(parts: Seq<Seq<char>>, i: int)
    requires
        0 <= i < parts.len(),
    ensures
        i == 0 ==> joined_paths(parts.take(1)) == drop_trailing_slashes(
            drop_leading_slashes(parts[0]),
        ),
        i > 0 ==> joined_paths(parts.take(i + 1)) =~= joined_paths(parts.take(i)) + seq!['/']
            + drop_trailing_slashes(drop_leading_slashes(parts[i])),
    decreases i,
{
    if i == 0 {
        assert(parts.take(1).len() == 1);
        assert(parts.take(1)[0] == parts[0]);
    } else {
        let pre = parts.take(i + 1);
        assert(pre.len() >= 2);
        assert(pre[0] == parts[0]);
        assert(pre.drop_first() =~= parts.drop_first().take(i));
        lemma_joined_take_step(parts.drop_first(), i - 1);
        assert(parts.take(i).drop_first() =~= parts.drop_first().take(i - 1));
        assert(parts.take(i)[0] == parts[0]);
        if i == 1 {
            assert(joined_paths(parts.drop_first().take(1)) == drop_trailing_slashes(
                drop_leading_slashes(parts.drop_first()[0]),
            ));
            assert(parts.drop_first()[0] == parts[1]);
        }
    }
}

} // verus!
