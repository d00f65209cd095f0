//! Substitution laws of pattern matching.
//!
//! These laws pin the matcher down on templates built by substitution:
//! writing concrete values into the captures of a template yields a path
//! that matches, with exactly those values captured — and, as long as the
//! template has at most one wildcard, with no other capture assignment.
//! A wildcard value may hold separators or be empty; a segment value must
//! be non-empty and separator-free, and a segment value holding a
//! separator never matches.

use vstd::prelude::*;

use crate::matching::{is_split, no_slash, toks_match};
use crate::pattern::{
    cap_names, is_slash_tok, lemma_cap_names_concat, lemma_cap_names_single, lemma_next_slash,
    lemma_template_toks_delimited, lit_char, lit_seq, lits_one, next_slash, seg_delimited,
    seg_is_var, seg_toks_from, segs_closed, tail_count, template_toks, template_toks_from, wild_at,
    word_end, TokView,
};

verus! {

/// The path obtained by writing `vals` into the captures of `toks`.
pub open spec fn subst(toks: Seq<TokView>, vals: Seq<Seq<char>>) -> Seq<char>
    decreases toks.len(),
{
    if toks.len() == 0 {
        Seq::empty()
    } else {
        match toks[0] {
            TokView::Lit(cs) => cs + subst(toks.drop_first(), vals),
            TokView::Seg(_) => vals[0] + subst(toks.drop_first(), vals.drop_first()),
            TokView::Tail(_) => vals[0] + subst(toks.drop_first(), vals.drop_first()),
        }
    }
}

/// Whether `vals` is an admissible capture assignment for `toks`: one
/// value per capture, segment values non-empty and separator-free.
pub open spec fn caps_ok(toks: Seq<TokView>, vals: Seq<Seq<char>>) -> bool
    decreases toks.len(),
{
    if toks.len() == 0 {
        vals.len() == 0
    } else {
        match toks[0] {
            TokView::Lit(_) => caps_ok(toks.drop_first(), vals),
            TokView::Seg(_) => vals.len() > 0 && vals[0].len() > 0 && no_slash(vals[0]) && caps_ok(
                toks.drop_first(),
                vals.drop_first(),
            ),
            TokView::Tail(_) => vals.len() > 0 && caps_ok(toks.drop_first(), vals.drop_first()),
        }
    }
}

/// The number of separators in `s`.
pub open spec fn slashes(s: Seq<char>) -> int
    decreases s.len(),
{
    if s.len() == 0 {
        0
    } else {
        (if s[0] == '/' {
            1int
        } else {
            0int
        }) + slashes(s.drop_first())
    }
}

/// The number of separators contributed by the literal tokens.
pub open spec fn lit_slashes(toks: Seq<TokView>) -> int
    decreases toks.len(),
{
    if toks.len() == 0 {
        0
    } else {
        (match toks[0] {
            TokView::Lit(cs) => slashes(cs),
            TokView::Seg(_) => 0,
            TokView::Tail(_) => 0,
        }) + lit_slashes(toks.drop_first())
    }
}

/// The number of separators in all values together.
pub open spec fn vals_slashes(vals: Seq<Seq<char>>) -> int
    decreases vals.len(),
{
    if vals.len() == 0 {
        0
    } else {
        slashes(vals[0]) + vals_slashes(vals.drop_first())
    }
}

/// Every segment capture is preceded somewhere by a literal separator.
pub open spec fn no_early_seg(toks: Seq<TokView>) -> bool {
    forall|k: int|
        0 <= k < toks.len() && (#[trigger] toks[k]) is Seg ==> exists|j: int|
            0 <= j < k && is_slash_tok(#[trigger] toks[j])
}

/// After every wildcard, a literal separator comes before any segment
/// capture.
pub open spec fn post_tail_ok(toks: Seq<TokView>) -> bool {
    forall|k: int|
        0 <= k < toks.len() && (#[trigger] toks[k]) is Tail ==> no_early_seg(toks.skip(k + 1))
}

proof fn lemma_wfs_drop(toks: Seq<TokView>)
    requires
        toks.len() > 0,
    ensures
        segs_closed(toks) ==> segs_closed(toks.drop_first()),
        lits_one(toks) ==> lits_one(toks.drop_first()),
        post_tail_ok(toks) ==> post_tail_ok(toks.drop_first()),
        tail_count(toks.drop_first()) == tail_count(toks) - (if toks[0] is Tail {
            1int
        } else {
            0int
        }),
{
    let d = toks.drop_first();
    if segs_closed(toks) {
        assert forall|i: int| 0 <= i < d.len() && (#[trigger] d[i]) is Seg implies i + 1 < d.len()
            && is_slash_tok(d[i + 1]) by {
            assert(d[i] == toks[i + 1]);
            assert(d[i + 1] == toks[i + 2]);
        }
    }
    if lits_one(toks) {
        assert forall|i: int|
            0 <= i < d.len() && (#[trigger] d[i]) is Lit implies lit_seq(d[i]).len() == 1 by {
            assert(d[i] == toks[i + 1]);
        }
    }
    if post_tail_ok(toks) {
        assert forall|k: int|
            0 <= k < d.len() && (#[trigger] d[k]) is Tail implies no_early_seg(d.skip(k + 1)) by {
            assert(d[k] == toks[k + 1]);
            assert(d.skip(k + 1) =~= toks.skip(k + 2));
        }
    }
}

proof fn lemma_early_drop(toks: Seq<TokView>)
    requires
        toks.len() > 0,
        !is_slash_tok(toks[0]),
        no_early_seg(toks),
    ensures
        no_early_seg(toks.drop_first()),
{
    let d = toks.drop_first();
    assert forall|k: int| 0 <= k < d.len() && (#[trigger] d[k]) is Seg implies exists|j: int|
        0 <= j < k && is_slash_tok(#[trigger] d[j]) by {
        assert(d[k] == toks[k + 1]);
        let j = choose|j: int| 0 <= j < k + 1 && is_slash_tok(#[trigger] toks[j]);
        assert(j >= 1);
        assert(d[j - 1] == toks[j]);
        assert(0 <= j - 1 < k && is_slash_tok(d[j - 1]));
    }
}

/// Delimited segment captures leave no segment capture unseparated after
/// a wildcard.
pub proof fn lemma_delimited_post_tail(toks: Seq<TokView>)
    requires
        seg_delimited(toks),
    ensures
        post_tail_ok(toks),
{
    assert forall|k: int|
        0 <= k < toks.len() && (#[trigger] toks[k]) is Tail implies no_early_seg(
        toks.skip(k + 1),
    ) by {
        let suf = toks.skip(k + 1);
        assert forall|m: int| 0 <= m < suf.len() && (#[trigger] suf[m]) is Seg implies exists|
            j: int,
        | 0 <= j < m && is_slash_tok(#[trigger] suf[j]) by {
            assert(suf[m] == toks[k + 1 + m]);
            assert(is_slash_tok(toks[k + m]));
            assert(m >= 1) by {
                if m == 0 {
                    assert(toks[k] is Tail);
                }
            }
            assert(suf[m - 1] == toks[k + m]);
            assert(0 <= m - 1 < m && is_slash_tok(suf[m - 1]));
        }
    }
}

/// A split reassembles the path: the path is the substitution of its
/// captured values.
pub proof fn lemma_split_subst(toks: Seq<TokView>, p: Seq<char>, caps: Seq<Seq<char>>)
    requires
        lits_one(toks),
        is_split(toks, p, caps),
    ensures
        p =~= subst(toks, caps),
    decreases toks.len(),
{
    if toks.len() > 0 {
        lemma_wfs_drop(toks);
        match toks[0] {
            TokView::Lit(cs) => {
                assert(toks[0] is Lit);
                assert(cs.len() == 1);
                lemma_split_subst(toks.drop_first(), p.drop_first(), caps);
                assert(p =~= cs + subst(toks.drop_first(), caps));
            },
            TokView::Seg(_) => {
                lemma_split_subst(
                    toks.drop_first(),
                    p.skip(caps[0].len() as int),
                    caps.drop_first(),
                );
                assert(p =~= caps[0] + subst(toks.drop_first(), caps.drop_first()));
            },
            TokView::Tail(_) => {
                lemma_split_subst(
                    toks.drop_first(),
                    p.skip(caps[0].len() as int),
                    caps.drop_first(),
                );
                assert(p =~= caps[0] + subst(toks.drop_first(), caps.drop_first()));
            },
        }
    }
}

/// An admissible assignment splits its own substitution.
pub proof fn lemma_subst_split(toks: Seq<TokView>, vals: Seq<Seq<char>>)
    requires
        lits_one(toks),
        caps_ok(toks, vals),
    ensures
        is_split(toks, subst(toks, vals), vals),
    decreases toks.len(),
{
    let p = subst(toks, vals);
    if toks.len() > 0 {
        lemma_wfs_drop(toks);
        match toks[0] {
            TokView::Lit(cs) => {
                assert(toks[0] is Lit);
                assert(cs.len() == 1);
                lemma_subst_split(toks.drop_first(), vals);
                let rest = subst(toks.drop_first(), vals);
                assert(p == cs + rest);
                assert(p.len() > 0);
                assert(p[0] == cs[0]);
                assert(p.drop_first() =~= rest);
            },
            TokView::Seg(_) => {
                lemma_subst_split(toks.drop_first(), vals.drop_first());
                let rest = subst(toks.drop_first(), vals.drop_first());
                assert(p == vals[0] + rest);
                assert(p.take(vals[0].len() as int) =~= vals[0]);
                assert(p.skip(vals[0].len() as int) =~= rest);
            },
            TokView::Tail(_) => {
                lemma_subst_split(toks.drop_first(), vals.drop_first());
                let rest = subst(toks.drop_first(), vals.drop_first());
                assert(p == vals[0] + rest);
                assert(p.take(vals[0].len() as int) =~= vals[0]);
                assert(p.skip(vals[0].len() as int) =~= rest);
            },
        }
    }
}

proof fn lemma_slashes_take_skip(s: Seq<char>, k: int)
    requires
        0 <= k <= s.len(),
    ensures
        slashes(s) == slashes(s.take(k)) + slashes(s.skip(k)),
    decreases k,
{
    if k == 0 {
        assert(s.take(0) =~= Seq::<char>::empty());
        assert(s.skip(0) =~= s);
    } else {
        lemma_slashes_take_skip(s.drop_first(), k - 1);
        assert(s.take(k).drop_first() =~= s.drop_first().take(k - 1));
        assert(s.skip(k) =~= s.drop_first().skip(k - 1));
        assert(s.take(k).len() > 0);
        assert(s.take(k)[0] == s[0]);
    }
}

proof fn lemma_no_slash_zero(s: Seq<char>)
    ensures
        no_slash(s) <==> slashes(s) == 0,
    decreases s.len(),
{
    if s.len() > 0 {
        lemma_no_slash_zero(s.drop_first());
        lemma_slashes_nonneg(s.drop_first());
        if slashes(s) == 0 {
            assert forall|i: int| 0 <= i < s.len() implies #[trigger] s[i] != '/' by {
                if i > 0 {
                    assert(s.drop_first()[i - 1] == s[i]);
                }
            }
        }
        if no_slash(s) {
            assert forall|i: int|
                0 <= i < s.drop_first().len() implies #[trigger] s.drop_first()[i] != '/' by {
                assert(s.drop_first()[i] == s[i + 1]);
            }
        }
    }
}

proof fn lemma_slashes_single(cs: Seq<char>)
    requires
        cs.len() == 1,
    ensures
        slashes(cs) == (if cs[0] == '/' {
            1int
        } else {
            0int
        }),
{
    assert(cs.drop_first() =~= Seq::<char>::empty());
    assert(slashes(cs.drop_first()) == 0);
}

proof fn lemma_post_tail_first(toks: Seq<TokView>)
    requires
        post_tail_ok(toks),
        toks.len() > 0,
        toks[0] is Tail,
    ensures
        no_early_seg(toks.drop_first()),
{
    assert(no_early_seg(toks.skip(1)));
    assert(toks.skip(1) =~= toks.drop_first());
}

proof fn lemma_slashes_nonneg(s: Seq<char>)
    ensures
        slashes(s) >= 0,
    decreases s.len(),
{
    if s.len() > 0 {
        lemma_slashes_nonneg(s.drop_first());
    }
}

/// Without wildcards, a matching path carries exactly the separators of
/// the literal tokens.
proof fn lemma_split_slashes(toks: Seq<TokView>, p: Seq<char>, caps: Seq<Seq<char>>)
    requires
        lits_one(toks),
        tail_count(toks) == 0,
        is_split(toks, p, caps),
    ensures
        slashes(p) == lit_slashes(toks),
    decreases toks.len(),
{
    if toks.len() > 0 {
        lemma_wfs_drop(toks);
        match toks[0] {
            TokView::Lit(cs) => {
                assert(toks[0] is Lit);
                assert(cs.len() == 1);
                lemma_split_slashes(toks.drop_first(), p.drop_first(), caps);
                lemma_slashes_single(cs);
                assert(p[0] == cs[0]);
            },
            TokView::Seg(_) => {
                let l = caps[0].len() as int;
                lemma_split_slashes(toks.drop_first(), p.skip(l), caps.drop_first());
                lemma_slashes_take_skip(p, l);
                lemma_no_slash_zero(caps[0]);
                assert(p.take(l) == caps[0]);
            },
            TokView::Tail(_) => {
                assert(tail_count(toks) >= 1) by {
                    lemma_tail_count_nonneg(toks.drop_first());
                }
            },
        }
    }
}

proof fn lemma_tail_count_nonneg(toks: Seq<TokView>)
    ensures
        tail_count(toks) >= 0,
    decreases toks.len(),
{
    if toks.len() > 0 {
        lemma_tail_count_nonneg(toks.drop_first());
    }
}

/// The substitution carries the literal separators plus those of the
/// written values.
proof fn lemma_subst_slashes(toks: Seq<TokView>, vals: Seq<Seq<char>>)
    requires
        caps_ok(toks, vals),
    ensures
        slashes(subst(toks, vals)) == lit_slashes(toks) + vals_slashes(vals),
    decreases toks.len(),
{
    if toks.len() == 0 {
    } else {
        match toks[0] {
            TokView::Lit(cs) => {
                lemma_subst_slashes(toks.drop_first(), vals);
                lemma_slashes_concat(cs, subst(toks.drop_first(), vals));
            },
            TokView::Seg(_) => {
                lemma_subst_slashes(toks.drop_first(), vals.drop_first());
                lemma_slashes_concat(vals[0], subst(toks.drop_first(), vals.drop_first()));
            },
            TokView::Tail(_) => {
                lemma_subst_slashes(toks.drop_first(), vals.drop_first());
                lemma_slashes_concat(vals[0], subst(toks.drop_first(), vals.drop_first()));
            },
        }
    }
}

proof fn lemma_slashes_concat(a: Seq<char>, b: Seq<char>)
    ensures
        slashes(a + b) == slashes(a) + slashes(b),
    decreases a.len(),
{
    if a.len() == 0 {
        assert(a + b =~= b);
    } else {
        lemma_slashes_concat(a.drop_first(), b);
        assert((a + b).drop_first() =~= a.drop_first() + b);
        assert((a + b)[0] == a[0]);
    }
}

/// In a template without wildcards, a segment value holding a separator
/// never matches: the substituted path has more separators than any
/// split can account for. (With a wildcard elsewhere the path may still
/// match, the wildcard absorbing the extra separator.)
pub proof fn lemma_separator_no_match(toks: Seq<TokView>, vals: Seq<Seq<char>>)
    requires
        lits_one(toks),
        tail_count(toks) == 0,
        caps_ok_lax(toks, vals),
        vals_slashes(vals) > 0,
    ensures
        !toks_match(toks, subst(toks, vals)),
{
    lemma_subst_slashes_lax(toks, vals);
    if toks_match(toks, subst(toks, vals)) {
        let caps = choose|caps: Seq<Seq<char>>| is_split(toks, subst(toks, vals), caps);
        lemma_split_slashes(toks, subst(toks, vals), caps);
    }
}

/// Like `caps_ok`, but without the separator-free condition on segment
/// values: the shape that an arbitrary substitution has.
pub open spec fn caps_ok_lax(toks: Seq<TokView>, vals: Seq<Seq<char>>) -> bool
    decreases toks.len(),
{
    if toks.len() == 0 {
        vals.len() == 0
    } else {
        match toks[0] {
            TokView::Lit(_) => caps_ok_lax(toks.drop_first(), vals),
            TokView::Seg(_) => vals.len() > 0 && caps_ok_lax(toks.drop_first(), vals.drop_first()),
            TokView::Tail(_) => vals.len() > 0 && caps_ok_lax(toks.drop_first(), vals.drop_first()),
        }
    }
}

proof fn lemma_subst_slashes_lax(toks: Seq<TokView>, vals: Seq<Seq<char>>)
    requires
        caps_ok_lax(toks, vals),
    ensures
        slashes(subst(toks, vals)) == lit_slashes(toks) + vals_slashes(vals),
    decreases toks.len(),
{
    if toks.len() == 0 {
    } else {
        match toks[0] {
            TokView::Lit(cs) => {
                lemma_subst_slashes_lax(toks.drop_first(), vals);
                lemma_slashes_concat(cs, subst(toks.drop_first(), vals));
            },
            TokView::Seg(_) => {
                lemma_subst_slashes_lax(toks.drop_first(), vals.drop_first());
                lemma_slashes_concat(vals[0], subst(toks.drop_first(), vals.drop_first()));
            },
            TokView::Tail(_) => {
                lemma_subst_slashes_lax(toks.drop_first(), vals.drop_first());
                lemma_slashes_concat(vals[0], subst(toks.drop_first(), vals.drop_first()));
            },
        }
    }
}

/// A no-wildcard token list cannot fully match both a string and a proper
/// suffix of it.
proof fn lemma_no_tail_shift(
    toks: Seq<TokView>,
    s: Seq<char>,
    d: int,
    c1: Seq<Seq<char>>,
    c2: Seq<Seq<char>>,
)
    requires
        segs_closed(toks),
        lits_one(toks),
        tail_count(toks) == 0,
        no_early_seg(toks),
        is_split(toks, s, c1),
        0 < d <= s.len(),
    ensures
        !is_split(toks, s.skip(d), c2),
    decreases toks.len(),
{
    if is_split(toks, s.skip(d), c2) {
        if toks.len() == 0 {
            assert(s.len() == 0);
        } else {
            lemma_wfs_drop(toks);
            match toks[0] {
                TokView::Lit(cs) => {
                    assert(toks[0] is Lit);
                    assert(cs.len() == 1);
                    let c = cs[0];
                    assert(s[0] == c);
                    assert(s.skip(d).len() > 0);
                    assert(s.skip(d)[0] == s[d]);
                    if c == '/' {
                        lemma_split_slashes(toks, s, c1);
                        lemma_split_slashes(toks, s.skip(d), c2);
                        lemma_slashes_take_skip(s, d);
                        lemma_no_slash_zero(s.take(d));
                        assert(slashes(s.take(d)) == 0);
                        assert(s.take(d)[0] == '/');
                    } else {
                        lemma_early_drop(toks);
                        assert(s.skip(d).drop_first() =~= s.drop_first().skip(d));
                        lemma_no_tail_shift(toks.drop_first(), s.drop_first(), d, c1, c2);
                        assert(is_split(toks.drop_first(), s.drop_first().skip(d), c2));
                    }
                },
                TokView::Seg(_) => {
                    assert(toks[0] is Seg);
                    assert(exists|j: int| 0 <= j < 0 && is_slash_tok(#[trigger] toks[j]));
                },
                TokView::Tail(_) => {
                    lemma_tail_count_nonneg(toks.drop_first());
                },
            }
        }
    }
}

/// With at most one wildcard, a path determines its capture assignment.
pub proof fn lemma_split_unique(
    toks: Seq<TokView>,
    p: Seq<char>,
    c1: Seq<Seq<char>>,
    c2: Seq<Seq<char>>,
)
    requires
        segs_closed(toks),
        lits_one(toks),
        post_tail_ok(toks),
        tail_count(toks) <= 1,
        is_split(toks, p, c1),
        is_split(toks, p, c2),
    ensures
        c1 =~~= c2,
    decreases toks.len(),
{
    if toks.len() == 0 {
    } else {
        lemma_wfs_drop(toks);
        match toks[0] {
            TokView::Lit(cs) => {
                lemma_split_unique(toks.drop_first(), p.drop_first(), c1, c2);
            },
            TokView::Seg(_) => {
                let l1 = c1[0].len() as int;
                let l2 = c2[0].len() as int;
                lemma_seg_capture_bound(toks, p, c1);
                lemma_seg_capture_bound(toks, p, c2);
                assert(l1 == l2) by {
                    if l1 < l2 {
                        assert(c2[0][l1] == p[l1]);
                    }
                    if l2 < l1 {
                        assert(c1[0][l2] == p[l2]);
                    }
                }
                assert(c1[0] == c2[0]);
                lemma_split_unique(toks.drop_first(), p.skip(l1), c1.drop_first(), c2.drop_first());
                assert(c1 =~~= c2) by {
                    assert(c1[0] =~~= c2[0]);
                    assert(c1.drop_first() =~~= c2.drop_first());
                    assert(c1.len() == c2.len());
                    assert(forall|i: int|
                        1 <= i < c1.len() ==> #[trigger] c1[i] == c1.drop_first()[i - 1]);
                    assert(forall|i: int|
                        1 <= i < c2.len() ==> #[trigger] c2[i] == c2.drop_first()[i - 1]);
                }
            },
            TokView::Tail(_) => {
                let l1 = c1[0].len() as int;
                let l2 = c2[0].len() as int;
                let rest = toks.drop_first();
                lemma_tail_count_nonneg(rest);
                assert(tail_count(rest) == 0);
                lemma_post_tail_first(toks);
                assert(no_early_seg(rest));
                assert(l1 == l2) by {
                    if l1 < l2 {
                        let s = p.skip(l1);
                        assert(p.skip(l2) =~= s.skip(l2 - l1));
                        assert(l2 <= p.len());
                        lemma_no_tail_shift(rest, s, l2 - l1, c1.drop_first(), c2.drop_first());
                        assert(is_split(rest, s.skip(l2 - l1), c2.drop_first()));
                    }
                    if l2 < l1 {
                        let s = p.skip(l2);
                        assert(p.skip(l1) =~= s.skip(l1 - l2));
                        lemma_no_tail_shift(rest, s, l1 - l2, c2.drop_first(), c1.drop_first());
                        assert(is_split(rest, s.skip(l1 - l2), c1.drop_first()));
                    }
                }
                assert(c1[0] == c2[0]);
                lemma_split_unique(rest, p.skip(l1), c1.drop_first(), c2.drop_first());
                assert(c1 =~~= c2) by {
                    assert(c1.drop_first() =~~= c2.drop_first());
                    assert(c1.len() == c2.len());
                    assert(forall|i: int|
                        1 <= i < c1.len() ==> #[trigger] c1[i] == c1.drop_first()[i - 1]);
                    assert(forall|i: int|
                        1 <= i < c2.len() ==> #[trigger] c2[i] == c2.drop_first()[i - 1]);
                }
            },
        }
    }
}

/// Under a segment capture, the captured run always reaches exactly to
/// the next separator of the path.
proof fn lemma_seg_capture_bound(toks: Seq<TokView>, p: Seq<char>, caps: Seq<Seq<char>>)
    requires
        segs_closed(toks),
        lits_one(toks),
        toks.len() > 0,
        toks[0] is Seg,
        is_split(toks, p, caps),
    ensures
        caps[0].len() < p.len(),
        p[caps[0].len() as int] == '/',
        forall|i: int| 0 <= i < caps[0].len() ==> p[i] != '/',
{
    let l = caps[0].len() as int;
    assert(is_slash_tok(toks[1]));
    let rest = toks.drop_first();
    let rp = p.skip(l);
    assert(is_split(rest, rp, caps.drop_first()));
    assert(rest[0] == toks[1]);
    assert(rest.len() > 0);
    assert(rp.len() > 0);
    assert(rp[0] == lit_char(rest[0]));
    assert(rp[0] == p[l]);
    assert forall|i: int| 0 <= i < l implies p[i] != '/' by {
        assert(caps[0][i] == p.take(l)[i]);
    }
}

/// Writing admissible values into the captures of a template with at most
/// one wildcard yields a path that matches with exactly those values: the
/// round trip of substitution and matching. Wildcard values may be empty
/// or hold separators; segment values are non-empty and separator-free.
pub proof fn lemma_capture_roundtrip(toks: Seq<TokView>, vals: Seq<Seq<char>>)
    requires
        seg_delimited(toks),
        lits_one(toks),
        tail_count(toks) <= 1,
        caps_ok(toks, vals),
    ensures
        is_split(toks, subst(toks, vals), vals),
        forall|other: Seq<Seq<char>>|
            is_split(toks, subst(toks, vals), other) ==> other =~~= vals,
{
    crate::pattern::lemma_delimited_implies_closed(toks);
    lemma_delimited_post_tail(toks);
    lemma_subst_split(toks, vals);
    assert forall|other: Seq<Seq<char>>|
        is_split(toks, subst(toks, vals), other) implies other =~~= vals by {
        lemma_split_unique(toks, subst(toks, vals), other, vals);
    }
}

/// A capture-free token list matches exactly one path: the concatenation
/// of its literals.
pub proof fn lemma_static_roundtrip(toks: Seq<TokView>, p: Seq<char>)
    requires
        lits_one(toks),
        cap_names(toks).len() == 0,
    ensures
        toks_match(toks, p) <==> p == subst(toks, Seq::<Seq<char>>::empty()),
{
    lemma_no_caps_ok(toks);
    lemma_subst_split(toks, Seq::<Seq<char>>::empty());
    if toks_match(toks, p) {
        let caps = choose|caps: Seq<Seq<char>>| is_split(toks, p, caps);
        crate::matching::lemma_split_caps_len(toks, p, caps);
        assert(caps =~~= Seq::<Seq<char>>::empty());
        lemma_split_subst(toks, p, caps);
    }
    if p == subst(toks, Seq::<Seq<char>>::empty()) {
        assert(is_split(toks, p, Seq::<Seq<char>>::empty()));
    }
}

/// Substitution peels a leading capture-free block off a concatenation.
proof fn lemma_subst_concat_nocap(a: Seq<TokView>, b: Seq<TokView>, vals: Seq<Seq<char>>)
    requires
        cap_names(a).len() == 0,
    ensures
        subst(a + b, vals) =~= subst(a, vals) + subst(b, vals),
    decreases a.len(),
{
    if a.len() == 0 {
        assert(a + b =~= b);
        assert(subst(a, vals) =~= Seq::<char>::empty());
    } else {
        lemma_cap_names_concat(seq![a[0]], a.drop_first());
        lemma_cap_names_single(a[0]);
        assert(seq![a[0]] + a.drop_first() =~= a);
        match a[0] {
            TokView::Lit(cs) => {
                lemma_subst_concat_nocap(a.drop_first(), b, vals);
                assert((a + b)[0] == a[0]);
                assert((a + b).drop_first() =~= a.drop_first() + b);
                assert(subst(a + b, vals) == cs + subst(a.drop_first() + b, vals));
                assert(subst(a, vals) == cs + subst(a.drop_first(), vals));
            },
            TokView::Seg(_) => {
                assert(cap_names(a).len() > 0);
            },
            TokView::Tail(_) => {
                assert(cap_names(a).len() > 0);
            },
        }
    }
}

/// A capture-free segment chunk substitutes back to its own text.
proof fn lemma_seg_reconstruct(t: Seq<char>, i: int, end: int)
    requires
        0 <= i <= end <= t.len(),
        cap_names(seg_toks_from(t, i, end)).len() == 0,
    ensures
        subst(seg_toks_from(t, i, end), Seq::<Seq<char>>::empty()) =~= t.subrange(i, end),
    decreases end - i,
{
    let toks = seg_toks_from(t, i, end);
    if i >= end {
        assert(t.subrange(i, end) =~= Seq::<char>::empty());
    } else if wild_at(t, i, end) {
        let w = word_end(t, i + 2, end);
        let rest = seg_toks_from(t, w + 1, end);
        lemma_cap_names_concat(seq![TokView::Tail(t.subrange(i + 2, w))], rest);
        lemma_cap_names_single(TokView::Tail(t.subrange(i + 2, w)));
        assert(cap_names(toks).len() > 0);
    } else {
        let x = TokView::Lit(t.subrange(i, i + 1));
        let rest = seg_toks_from(t, i + 1, end);
        lemma_cap_names_concat(seq![x], rest);
        lemma_cap_names_single(x);
        lemma_seg_reconstruct(t, i + 1, end);
        assert(toks == seq![x] + rest);
        assert(toks[0] == x);
        assert(toks.drop_first() =~= rest);
        assert(subst(toks, Seq::<Seq<char>>::empty()) == t.subrange(i, i + 1) + subst(
            rest,
            Seq::<Seq<char>>::empty(),
        ));
        assert(t.subrange(i, i + 1) + t.subrange(i + 1, end) =~= t.subrange(i, end));
    }
}

/// A capture-free template substitutes back to its own text.
proof fn lemma_template_reconstruct_from(t: Seq<char>, p: int)
    requires
        0 <= p <= t.len(),
        cap_names(template_toks_from(t, p)).len() == 0,
    ensures
        subst(template_toks_from(t, p), Seq::<Seq<char>>::empty()) =~= t.skip(p),
    decreases t.len() - p,
{
    let toks = template_toks_from(t, p);
    let none: Seq<Seq<char>> = Seq::empty();
    if p >= t.len() {
        assert(t.skip(p) =~= Seq::<char>::empty());
    } else if t[p] == '/' {
        let e = next_slash(t, p + 1);
        lemma_next_slash(t, p + 1);
        let head = TokView::Lit(t.subrange(p, p + 1));
        let rest = template_toks_from(t, e);
        if seg_is_var(t, p + 1, e) && e < t.len() {
            let mid = seq![TokView::Seg(t.subrange(p + 2, e))];
            lemma_cap_names_concat(seq![head] + mid, rest);
            lemma_cap_names_concat(seq![head], mid);
            lemma_cap_names_single(head);
            lemma_cap_names_single(TokView::Seg(t.subrange(p + 2, e)));
            assert(cap_names(seq![head] + mid).len() > 0);
            assert(cap_names(toks).len() > 0);
        } else {
            let mid = seg_toks_from(t, p + 1, e);
            lemma_cap_names_concat(seq![head] + mid, rest);
            lemma_cap_names_concat(seq![head], mid);
            lemma_cap_names_single(head);
            assert(cap_names(mid).len() == 0);
            assert(cap_names(rest).len() == 0);
            assert(cap_names(seq![head]).len() == 0);
            lemma_seg_reconstruct(t, p + 1, e);
            lemma_template_reconstruct_from(t, e);
            lemma_cap_names_concat(seq![head], mid);
            assert(cap_names(seq![head] + mid).len() == 0);
            lemma_subst_concat_nocap(seq![head] + mid, rest, none);
            lemma_subst_concat_nocap(seq![head], mid, none);
            assert(toks == seq![head] + mid + rest);
            assert(subst(seq![head], none) =~= t.subrange(p, p + 1)) by {
                assert(seq![head][0] == head);
                assert(seq![head].drop_first() =~= Seq::<TokView>::empty());
                assert(subst(seq![head].drop_first(), none) =~= Seq::<char>::empty());
            }
            assert(seq![head] + mid + rest =~= (seq![head] + mid) + rest);
            assert(subst(toks, none) =~= t.subrange(p, p + 1) + t.subrange(p + 1, e) + t.skip(e));
            assert(t.subrange(p, p + 1) + t.subrange(p + 1, e) + t.skip(e) =~= t.skip(p));
        }
    } else {
        let e = next_slash(t, p);
        lemma_next_slash(t, p);
        let pre = seg_toks_from(t, p, e);
        let rest = template_toks_from(t, e);
        lemma_cap_names_concat(pre, rest);
        assert(cap_names(pre).len() == 0);
        assert(cap_names(rest).len() == 0);
        lemma_seg_reconstruct(t, p, e);
        lemma_template_reconstruct_from(t, e);
        lemma_subst_concat_nocap(pre, rest, none);
        assert(toks == pre + rest);
        assert(subst(toks, none) =~= t.subrange(p, e) + t.skip(e));
        assert(t.subrange(p, e) + t.skip(e) =~= t.skip(p));
    }
}

/// A template without captures matches exactly one path: its own
/// (normalized) text.
pub proof fn lemma_static_template_match(t: Seq<char>, p: Seq<char>)
    requires
        cap_names(template_toks(t)).len() == 0,
    ensures
        toks_match(template_toks(t), p) <==> p == t,
{
    lemma_template_toks_delimited(t, 0);
    lemma_template_reconstruct_from(t, 0);
    lemma_static_roundtrip(template_toks(t), p);
    assert(t.skip(0) =~= t);
}

proof fn lemma_no_caps_ok(toks: Seq<TokView>)
    requires
        cap_names(toks).len() == 0,
    ensures
        caps_ok(toks, Seq::<Seq<char>>::empty()),
    decreases toks.len(),
{
    if toks.len() > 0 {
        match toks[0] {
            TokView::Lit(_) => {
                lemma_no_caps_ok(toks.drop_first());
            },
            TokView::Seg(n) => {
                assert(cap_names(toks) == seq![n] + cap_names(toks.drop_first()));
            },
            TokView::Tail(n) => {
                assert(cap_names(toks) == seq![n] + cap_names(toks.drop_first()));
            },
        }
    }
}

} // verus!
