//! Matching a request path against a compiled token sequence.
//!
//! The meaning of a token sequence is the relation `is_split`: a path
//! matches when it can be cut into pieces, one per token, where a literal
//! token contributes its character, a segment capture contributes a
//! non-empty separator-free run, and a wildcard capture contributes an
//! arbitrary run. The matcher decides that relation and returns one
//! witnessing assignment of the captures.

use vstd::prelude::*;

use crate::pattern::{is_slash_tok, lit_char, lit_seq, lits_one, segs_closed, tok_views, Tok, TokView};

verus! {

/// No separator occurs in `s`.
pub open spec fn no_slash(s: Seq<char>) -> bool {
    forall|i: int| 0 <= i < s.len() ==> s[i] != '/'
}

/// `caps` cuts `path` along `toks`: literals contribute their character,
/// a segment capture a non-empty separator-free run, a wildcard capture
/// an arbitrary run; the whole path is consumed.
pub open spec fn is_split(toks: Seq<TokView>, path: Seq<char>, caps: Seq<Seq<char>>) -> bool
    decreases toks.len(),
{
    if toks.len() == 0 {
        path.len() == 0 && caps.len() == 0
    } else {
        match toks[0] {
            TokView::Lit(_) => path.len() > 0 && path[0] == lit_char(toks[0]) && is_split(
                toks.drop_first(),
                path.drop_first(),
                caps,
            ),
            TokView::Seg(_) => caps.len() > 0 && caps[0].len() > 0 && no_slash(caps[0]) && caps[0].len()
                <= path.len() && caps[0] == path.take(caps[0].len() as int) && is_split(
                toks.drop_first(),
                path.skip(caps[0].len() as int),
                caps.drop_first(),
            ),
            TokView::Tail(_) => caps.len() > 0 && caps[0].len() <= path.len() && caps[0]
                == path.take(caps[0].len() as int) && is_split(
                toks.drop_first(),
                path.skip(caps[0].len() as int),
                caps.drop_first(),
            ),
        }
    }
}

/// A path matches a token sequence when some capture assignment splits it.
pub open spec fn toks_match(toks: Seq<TokView>, path: Seq<char>) -> bool {
    exists|caps: Seq<Seq<char>>| is_split(toks, path, caps)
}

/// Every split carries exactly one capture per capture token.
pub proof fn lemma_split_caps_len(toks: Seq<TokView>, path: Seq<char>, caps: Seq<Seq<char>>)
    requires
        is_split(toks, path, caps),
    ensures
        caps.len() == crate::pattern::cap_names(toks).len(),
    decreases toks.len(),
{
    if toks.len() > 0 {
        match toks[0] {
            TokView::Lit(_) => {
                lemma_split_caps_len(toks.drop_first(), path.drop_first(), caps);
            },
            TokView::Seg(_) => {
                lemma_split_caps_len(
                    toks.drop_first(),
                    path.skip(caps[0].len() as int),
                    caps.drop_first(),
                );
            },
            TokView::Tail(_) => {
                lemma_split_caps_len(
                    toks.drop_first(),
                    path.skip(caps[0].len() as int),
                    caps.drop_first(),
                );
            },
        }
    }
}

/// Decides whether the tokens from `ti` on match the path from `pi` on,
/// returning the captured runs in token order.
fn match_at(toks: &Vec<Tok>, ti: usize, path: &str, pi: usize) -> (r: Option<Vec<String>>)
    requires
        segs_closed(tok_views(toks@)),
        lits_one(tok_views(toks@)),
        ti <= toks@.len(),
        pi <= path@.len(),
    ensures
        match r {
            Some(v) => is_split(
                tok_views(toks@).skip(ti as int),
                path@.skip(pi as int),
                v.deep_view(),
            ),
            None => forall|caps: Seq<Seq<char>>|
                !is_split(tok_views(toks@).skip(ti as int), path@.skip(pi as int), caps),
        },
    decreases toks@.len() - ti, path@.len() - pi + 1,
{
    let ghost tv = tok_views(toks@);
    let ghost suf_t = tv.skip(ti as int);
    let ghost suf_p = path@.skip(pi as int);
    let plen = path.unicode_len();
    if ti == toks.len() {
        if pi == plen {
            let r: Vec<String> = Vec::new();
            proof {
                assert(suf_t.len() == 0);
                assert(suf_p.len() == 0);
                assert(r.deep_view() =~= Seq::<Seq<char>>::empty());
            }
            Some(r)
        } else {
            proof {
                assert(suf_t.len() == 0);
                assert(suf_p.len() > 0);
            }
            None
        }
    } else {
        proof {
            assert(suf_t[0] == tv[ti as int]);
            assert(tv[ti as int] == toks@[ti as int]@);
            assert(suf_t.drop_first() =~= tv.skip(ti as int + 1));
        }
        match &toks[ti] {
            Tok::Lit(cs) => {
                proof {
                    assert(suf_t[0] is Lit);
                    assert(lit_seq(suf_t[0]) == cs@);
                    assert(cs@.len() == 1);
                }
                let lc = cs.as_str().get_char(0);
                if pi < plen && path.get_char(pi) == lc {
                    proof {
                        assert(suf_p[0] == path@[pi as int]);
                        assert(lit_char(suf_t[0]) == lc);
                        assert(suf_p.drop_first() =~= path@.skip(pi as int + 1));
                    }
                    let r2 = match_at(toks, ti + 1, path, pi + 1);
                    match r2 {
                        Some(v) => {
                            proof {
                                assert(is_split(suf_t, suf_p, v.deep_view()));
                            }
                            Some(v)
                        },
                        None => {
                            proof {
                                assert forall|caps: Seq<Seq<char>>| !is_split(suf_t, suf_p, caps) by {
                                    if is_split(suf_t, suf_p, caps) {
                                        assert(is_split(
                                            tv.skip(ti as int + 1),
                                            path@.skip(pi as int + 1),
                                            caps,
                                        ));
                                    }
                                }
                            }
                            None
                        },
                    }
                } else {
                    proof {
                        if pi < plen {
                            assert(suf_p[0] == path@[pi as int]);
                            assert(suf_p[0] != lit_char(suf_t[0]));
                        } else {
                            assert(suf_p.len() == 0);
                        }
                    }
                    None
                }
            },
            Tok::Seg(_) => {
                proof {
                    assert(suf_t[0] is Seg);
                    assert(tv[ti as int] is Seg);
                    assert(ti as int + 1 < tv.len() && is_slash_tok(tv[ti as int + 1]));
                }
                let mut j: usize = pi;
                while j < plen && path.get_char(j) != '/'
                    invariant
                        pi <= j <= plen,
                        plen == path@.len(),
                        forall|k: int| pi <= k < j ==> path@[k] != '/',
                    decreases plen - j,
                {
                    j = j + 1;
                }
                proof {
                    if j < plen {
                        assert(path@[j as int] == '/');
                    }
                }
                if j == pi || j == plen {
                    proof {
                        assert forall|caps: Seq<Seq<char>>| !is_split(suf_t, suf_p, caps) by {
                            if is_split(suf_t, suf_p, caps) {
                                let c0 = caps[0];
                                assert(c0.len() > 0 && no_slash(c0));
                                assert(c0 == suf_p.take(c0.len() as int));
                                let rest_t = suf_t.drop_first();
                                let rest_p = suf_p.skip(c0.len() as int);
                                assert(is_split(rest_t, rest_p, caps.drop_first()));
                                assert(rest_t.len() > 0);
                                assert(rest_t[0] == tv[ti as int + 1]);
                                assert(rest_t[0] is Lit && lit_char(rest_t[0]) == '/');
                                assert(rest_p.len() > 0 && rest_p[0] == '/');
                                assert(path@[pi + c0.len()] == '/');
                                assert(c0[0] == suf_p[0]);
                                if j == pi {
                                    // the path starts with a separator or is empty here
                                    assert(pi < plen);
                                    assert(c0[0] == path@[pi as int]);
                                } else {
                                    // no separator remains for the token after the capture
                                    assert(pi + c0.len() < plen);
                                    if pi + c0.len() < j {
                                        assert(path@[pi + c0.len()] != '/');
                                    } else {
                                        assert(j - pi < c0.len());
                                        assert(c0[j - pi] == suf_p[j - pi]);
                                        assert(suf_p[j - pi] == path@[j as int]);
                                    }
                                }
                            }
                        }
                    }
                    None
                } else {
                    let r2 = match_at(toks, ti + 1, path, j);
                    proof {
                        assert(suf_p.skip(j - pi) =~= path@.skip(j as int));
                        assert(suf_p.take(j - pi) =~= path@.subrange(pi as int, j as int));
                    }
                    match r2 {
                        Some(mut v) => {
                            let cap = path.substring_char(pi, j).to_owned();
                            let ghost old_v = v;
                            v.insert(0, cap);
                            proof {
                                assert(v.deep_view() =~= seq![cap@] + old_v.deep_view());
                                let caps = v.deep_view();
                                assert(caps[0] == path@.subrange(pi as int, j as int));
                                assert(caps.drop_first() =~= old_v.deep_view());
                                assert(caps[0].len() == j - pi);
                                assert(caps[0] == suf_p.take(caps[0].len() as int));
                                assert(caps[0].len() > 0);
                                assert(forall|k: int|
                                    0 <= k < caps[0].len() ==> caps[0][k] == path@[pi + k]);
                                assert(no_slash(caps[0]));
                                assert(is_split(
                                    suf_t.drop_first(),
                                    suf_p.skip(caps[0].len() as int),
                                    caps.drop_first(),
                                ));
                                assert(is_split(suf_t, suf_p, caps));
                            }
                            Some(v)
                        },
                        None => {
                            proof {
                                assert forall|caps: Seq<Seq<char>>| !is_split(suf_t, suf_p, caps) by {
                                    if is_split(suf_t, suf_p, caps) {
                                        let c0 = caps[0];
                                        assert(c0.len() > 0 && no_slash(c0));
                                        let rest_t = suf_t.drop_first();
                                        let rest_p = suf_p.skip(c0.len() as int);
                                        assert(is_split(rest_t, rest_p, caps.drop_first()));
                                        assert(rest_t.len() > 0);
                                        assert(rest_t[0] == tv[ti as int + 1]);
                                        assert(rest_t[0] is Lit && lit_char(rest_t[0]) == '/');
                                        assert(rest_p.len() > 0 && rest_p[0] == '/');
                                        assert(path@[pi + c0.len()] == '/');
                                        if pi + c0.len() < j {
                                            assert(path@[pi + c0.len()] != '/');
                                        }
                                        if pi + c0.len() > j {
                                            assert(j - pi < c0.len());
                                            assert(c0 == suf_p.take(c0.len() as int));
                                            assert(c0[j - pi] == suf_p[j - pi]);
                                            assert(suf_p[j - pi] == path@[j as int]);
                                        }
                                        assert(pi + c0.len() == j);
                                        assert(c0 =~= path@.subrange(pi as int, j as int));
                                        assert(rest_p =~= path@.skip(j as int));
                                        assert(is_split(
                                            tv.skip(ti as int + 1),
                                            path@.skip(j as int),
                                            caps.drop_first(),
                                        ));
                                    }
                                }
                            }
                            None
                        },
                    }
                }
            },
            Tok::Tail(_) => {
                proof {
                    assert(suf_t[0] is Tail);
                }
                let r = match_tail(toks, ti, path, pi, plen);
                proof {
                    if r is None {
                        assert forall|caps: Seq<Seq<char>>| !is_split(suf_t, suf_p, caps) by {
                            if is_split(suf_t, suf_p, caps) {
                                assert(caps[0].len() <= suf_p.len());
                            }
                        }
                    }
                }
                r
            },
        }
    }
}

/// Tries wildcard captures of length `k - pi` down to zero, greedily from
/// the longest; on failure no split assigns the wildcard at most that run.
fn match_tail(toks: &Vec<Tok>, ti: usize, path: &str, pi: usize, k: usize) -> (r: Option<
    Vec<String>,
>)
    requires
        segs_closed(tok_views(toks@)),
        lits_one(tok_views(toks@)),
        ti < toks@.len(),
        toks@[ti as int]@ is Tail,
        pi <= k <= path@.len(),
    ensures
        match r {
            Some(v) => is_split(
                tok_views(toks@).skip(ti as int),
                path@.skip(pi as int),
                v.deep_view(),
            ),
            None => forall|caps: Seq<Seq<char>>|
                is_split(tok_views(toks@).skip(ti as int), path@.skip(pi as int), caps)
                    ==> caps.len() > 0 && caps[0].len() > k - pi,
        },
    decreases toks@.len() - ti, k - pi,
{
    let ghost tv = tok_views(toks@);
    let ghost suf_t = tv.skip(ti as int);
    let ghost suf_p = path@.skip(pi as int);
    proof {
        assert(suf_t[0] == tv[ti as int]);
        assert(tv[ti as int] == toks@[ti as int]@);
        assert(suf_t[0] is Tail);
        assert(suf_t.drop_first() =~= tv.skip(ti as int + 1));
    }
    let n = toks.len();
    let r2 = match_at(toks, ti + 1, path, k);
    match r2 {
        Some(mut v) => {
            let cap = path.substring_char(pi, k).to_owned();
            let ghost old_v = v;
            v.insert(0, cap);
            proof {
                assert(v.deep_view() =~= seq![cap@] + old_v.deep_view());
                let caps = v.deep_view();
                assert(caps[0] == path@.subrange(pi as int, k as int));
                assert(caps.drop_first() =~= old_v.deep_view());
                assert(caps[0].len() == k - pi);
                assert(caps[0] =~= suf_p.take(caps[0].len() as int));
                assert(suf_p.skip(k - pi) =~= path@.skip(k as int));
                assert(is_split(
                    suf_t.drop_first(),
                    suf_p.skip(caps[0].len() as int),
                    caps.drop_first(),
                ));
                assert(is_split(suf_t, suf_p, caps));
            }
            Some(v)
        },
        None => {
            if k == pi {
                proof {
                    assert forall|caps: Seq<Seq<char>>|
                        is_split(suf_t, suf_p, caps) implies caps.len() > 0 && caps[0].len() > k
                        - pi by {
                        if caps[0].len() == 0 {
                            assert(caps[0] == suf_p.take(0));
                            assert(suf_p.skip(0) =~= suf_p);
                            assert(suf_p =~= path@.skip(k as int));
                            assert(is_split(
                                tv.skip(ti as int + 1),
                                path@.skip(k as int),
                                caps.drop_first(),
                            ));
                        }
                    }
                }
                None
            } else {
                proof {
                    assert(pi < k);
                }
                let r3 = match_tail(toks, ti, path, pi, k - 1);
                proof {
                    if r3 is None {
                        assert forall|caps: Seq<Seq<char>>|
                            is_split(suf_t, suf_p, caps) implies caps.len() > 0 && caps[0].len()
                            > k - pi by {
                            assert(caps[0].len() > k - 1 - pi);
                            if caps[0].len() == k - pi {
                                assert(caps[0] == suf_p.take(k - pi));
                                assert(suf_p.skip(k - pi) =~= path@.skip(k as int));
                                assert(is_split(
                                    tv.skip(ti as int + 1),
                                    path@.skip(k as int),
                                    caps.drop_first(),
                                ));
                            }
                        }
                    }
                }
                r3
            }
        },
    }
}

/// Decides whether `path` matches the whole token sequence, returning the
/// captured runs in token order.
pub fn match_toks(toks: &Vec<Tok>, path: &str) -> (r: Option<Vec<String>>)
    requires
        segs_closed(tok_views(toks@)),
        lits_one(tok_views(toks@)),
    ensures
        match r {
            Some(v) => is_split(tok_views(toks@), path@, v.deep_view()),
            None => !toks_match(tok_views(toks@), path@),
        },
{
    let r = match_at(toks, 0, path, 0);
    proof {
        assert(tok_views(toks@).skip(0) =~= tok_views(toks@));
        assert(path@.skip(0) =~= path@);
    }
    r
}

} // verus!
