//! Route templates compiled into token sequences.
//!
//! A template such as `/user/:id/` or `/srv/static/*{rest}/` is scanned
//! into tokens: literal characters, single-segment captures (`:name`,
//! matching one non-empty run of characters without a separator) and
//! wildcard captures (`*{name}`, matching any run of characters, possibly
//! empty, separators included). A whole segment of the form `:name` with a
//! word-character name is a segment capture; `*{name}` is recognized
//! anywhere; everything else matches itself literally.

use vstd::prelude::*;

verus! {

/// One compiled token of a route template.
#[derive(Clone)]
pub enum Tok {
    /// A literal one-character chunk that the path must carry here.
    Lit(String),
    /// A named capture for one non-empty separator-free run.
    Seg(String),
    /// A named wildcard capture for an arbitrary (possibly empty) run.
    Tail(String),
}

/// The mathematical shape of a token. A literal carries a one-character
/// sequence; captures carry their names.
pub enum TokView {
    Lit(Seq<char>),
    Seg(Seq<char>),
    Tail(Seq<char>),
}

impl View for Tok {
    type V = TokView;

    open spec fn view(&self) -> TokView {
        match self {
            Tok::Lit(c) => TokView::Lit(c@),
            Tok::Seg(n) => TokView::Seg(n@),
            Tok::Tail(n) => TokView::Tail(n@),
        }
    }
}

/// The views of a token vector.
pub open spec fn tok_views(toks: Seq<Tok>) -> Seq<TokView> {
    toks.map_values(|t: Tok| t@)
}

/// The character sequence a token carries: the literal chunk, or the
/// name of a capture.
pub open spec fn lit_seq(tok: TokView) -> Seq<char> {
    match tok {
        TokView::Lit(cs) => cs,
        TokView::Seg(n) => n,
        TokView::Tail(n) => n,
    }
}

/// The character of a literal token.
pub open spec fn lit_char(tok: TokView) -> char {
    lit_seq(tok)[0]
}

/// Every literal token carries exactly one character.
pub open spec fn lits_one(toks: Seq<TokView>) -> bool {
    forall|i: int|
        0 <= i < toks.len() && (#[trigger] toks[i]) is Lit ==> lit_seq(toks[i]).len() == 1
}

/// Whether a token is the literal separator.
pub open spec fn is_slash_tok(tok: TokView) -> bool {
    tok is Lit && lit_char(tok) == '/'
}

/// Characters allowed in capture names.
pub open spec fn is_word_char(c: char) -> bool {
    ('a' <= c && c <= 'z') || ('A' <= c && c <= 'Z') || ('0' <= c && c <= '9') || c == '_'
}

/// The end of the run of word characters of `t` that starts at `i` and
/// stays below `end`.
pub open spec fn word_end(t: Seq<char>, i: int, end: int) -> int
    decreases end - i,
{
    if i < end && i < t.len() && is_word_char(t[i]) {
        word_end(t, i + 1, end)
    } else {
        i
    }
}

/// The position of the first separator of `t` at or after `i` (or the
/// length of `t` if there is none).
pub open spec fn next_slash(t: Seq<char>, i: int) -> int
    decreases t.len() - i,
{
    if i < t.len() {
        if t[i] == '/' {
            i
        } else {
            next_slash(t, i + 1)
        }
    } else {
        t.len() as int
    }
}

/// Whether the segment `t[a..b]` is a segment capture: a colon followed
/// only by word characters (possibly none: that is the empty-name error).
pub open spec fn seg_is_var(t: Seq<char>, a: int, b: int) -> bool {
    b - a >= 1 && t[a] == ':' && word_end(t, a + 1, b) == b
}

/// Whether a wildcard capture `*{name}` starts at `i` (staying below `end`).
pub open spec fn wild_at(t: Seq<char>, i: int, end: int) -> bool {
    &&& i + 1 < end
    &&& t[i] == '*'
    &&& t[i + 1] == '{'
    &&& word_end(t, i + 2, end) < end
    &&& t[word_end(t, i + 2, end)] == '}'
}

/// The tokens of the template chunk `t[i..end]` that lies inside one
/// segment (no separators in the chunk): wildcard captures where `*{name}`
/// occurs, literal characters elsewhere.
pub open spec fn seg_toks_from(t: Seq<char>, i: int, end: int) -> Seq<TokView>
    decreases end - i via seg_toks_from_dec
{
    if i >= end || i >= t.len() {
        Seq::empty()
    } else if wild_at(t, i, end) {
        let w = word_end(t, i + 2, end);
        seq![TokView::Tail(t.subrange(i + 2, w))] + seg_toks_from(t, w + 1, end)
    } else {
        seq![TokView::Lit(t.subrange(i, i + 1))] + seg_toks_from(t, i + 1, end)
    }
}

#[via_fn]
proof fn seg_toks_from_dec(t: Seq<char>, i: int, end: int) {
    if !(i >= end || i >= t.len()) && wild_at(t, i, end) {
        lemma_word_end(t, i + 2, end);
    }
}

/// The tokens of the template `t` from position `p` on: segments are
/// delimited by separators; a whole segment `:name` is a segment capture
/// (when another segment follows), anything else is scanned for wildcards.
pub open spec fn template_toks_from(t: Seq<char>, p: int) -> Seq<TokView>
    decreases t.len() - p via template_toks_from_dec
{
    if p < 0 || p >= t.len() {
        Seq::empty()
    } else if t[p] == '/' {
        let e = next_slash(t, p + 1);
        let mid = if seg_is_var(t, p + 1, e) && e < t.len() {
            seq![TokView::Seg(t.subrange(p + 2, e))]
        } else {
            seg_toks_from(t, p + 1, e)
        };
        seq![TokView::Lit(t.subrange(p, p + 1))] + mid + template_toks_from(t, e)
    } else {
        let e = next_slash(t, p);
        seg_toks_from(t, p, e) + template_toks_from(t, e)
    }
}

#[via_fn]
proof fn template_toks_from_dec(t: Seq<char>, p: int) {
    if 0 <= p < t.len() {
        if t[p] == '/' {
            lemma_next_slash(t, p + 1);
        } else {
            lemma_next_slash(t, p);
        }
    }
}

/// All tokens of the template `t`.
pub open spec fn template_toks(t: Seq<char>) -> Seq<TokView> {
    template_toks_from(t, 0)
}

/// The capture names of a token sequence, in scanning order.
pub open spec fn cap_names(toks: Seq<TokView>) -> Seq<Seq<char>>
    decreases toks.len(),
{
    if toks.len() == 0 {
        Seq::empty()
    } else {
        match toks[0] {
            TokView::Lit(_) => cap_names(toks.drop_first()),
            TokView::Seg(n) => seq![n] + cap_names(toks.drop_first()),
            TokView::Tail(n) => seq![n] + cap_names(toks.drop_first()),
        }
    }
}

/// The number of wildcard tokens.
pub open spec fn tail_count(toks: Seq<TokView>) -> int
    decreases toks.len(),
{
    if toks.len() == 0 {
        0
    } else {
        (if toks[0] is Tail {
            1int
        } else {
            0int
        }) + tail_count(toks.drop_first())
    }
}

/// Every segment capture is immediately followed by a literal separator.
/// The matcher relies on this: it bounds a segment capture by the next
/// separator of the path.
pub open spec fn segs_closed(toks: Seq<TokView>) -> bool {
    forall|i: int|
        0 <= i < toks.len() && (#[trigger] toks[i]) is Seg ==> i + 1 < toks.len() && is_slash_tok(
            toks[i + 1],
        )
}

/// Every segment capture sits between two literal separators, as a whole
/// segment of the template does.
pub open spec fn seg_delimited(toks: Seq<TokView>) -> bool {
    forall|i: int|
        0 <= i < toks.len() && (#[trigger] toks[i]) is Seg ==> 0 < i && i + 1 < toks.len()
            && is_slash_tok(toks[i - 1]) && is_slash_tok(toks[i + 1])
}

/// `next_slash` lands on a separator (or the end) and skips none before it.
pub proof fn lemma_next_slash(t: Seq<char>, i: int)
    requires
        0 <= i <= t.len(),
    ensures
        i <= next_slash(t, i) <= t.len(),
        next_slash(t, i) < t.len() ==> t[next_slash(t, i)] == '/',
        forall|k: int| i <= k < next_slash(t, i) ==> t[k] != '/',
    decreases t.len() - i,
{
    if i < t.len() && t[i] != '/' {
        lemma_next_slash(t, i + 1);
    }
}

/// `word_end` moves forward, never past `end`.
pub proof fn lemma_word_end(t: Seq<char>, i: int, end: int)
    ensures
        i <= word_end(t, i, end),
        i <= end ==> word_end(t, i, end) <= end,
    decreases end - i,
{
    if i < end && i < t.len() && is_word_char(t[i]) {
        lemma_word_end(t, i + 1, end);
    }
}

/// Segment chunks produce no segment-capture tokens, and their literal
/// tokens carry one character each.
proof fn lemma_seg_toks_shape(t: Seq<char>, i: int, end: int)
    requires
        0 <= i,
    ensures
        forall|k: int|
            0 <= k < seg_toks_from(t, i, end).len() ==> !((#[trigger] seg_toks_from(t, i, end)[k])
                is Seg),
        lits_one(seg_toks_from(t, i, end)),
    decreases end - i,
{
    if i >= end || i >= t.len() {
    } else if wild_at(t, i, end) {
        let w = word_end(t, i + 2, end);
        lemma_word_end(t, i + 2, end);
        lemma_seg_toks_shape(t, w + 1, end);
        let rest = seg_toks_from(t, w + 1, end);
        let x = TokView::Tail(t.subrange(i + 2, w));
        lemma_lits_one_cons(x, rest);
        lemma_no_seg_cons(x, rest);
    } else {
        lemma_seg_toks_shape(t, i + 1, end);
        let rest = seg_toks_from(t, i + 1, end);
        let x = TokView::Lit(t.subrange(i, i + 1));
        assert(lit_seq(x).len() == 1);
        lemma_lits_one_cons(x, rest);
        lemma_no_seg_cons(x, rest);
    }
}

/// The tokens of any template keep every segment capture between two
/// literal separators.
pub proof fn lemma_template_toks_delimited(t: Seq<char>, p: int)
    requires
        0 <= p,
    ensures
        seg_delimited(template_toks_from(t, p)),
        lits_one(template_toks_from(t, p)),
        template_toks_from(t, p).len() > 0 ==> !(template_toks_from(t, p)[0] is Seg),
        p < t.len() && t[p] == '/' ==> template_toks_from(t, p).len() > 0 && is_slash_tok(
            template_toks_from(t, p)[0],
        ),
    decreases t.len() - p,
{
    if p >= t.len() {
    } else if t[p] == '/' {
        let e = next_slash(t, p + 1);
        lemma_next_slash(t, p + 1);
        let mid = if seg_is_var(t, p + 1, e) && e < t.len() {
            seq![TokView::Seg(t.subrange(p + 2, e))]
        } else {
            seg_toks_from(t, p + 1, e)
        };
        let rest = template_toks_from(t, e);
        lemma_template_toks_delimited(t, e);
        lemma_seg_toks_shape(t, p + 1, e);
        let slash = TokView::Lit(t.subrange(p, p + 1));
        assert(is_slash_tok(slash));
        let whole = seq![slash] + mid + rest;
        assert(template_toks_from(t, p) == whole);
        if seg_is_var(t, p + 1, e) && e < t.len() {
            assert(t[e] == '/');
            assert(is_slash_tok(rest[0]));
            assert(whole[1] is Seg);
            assert(whole[2] == rest[0]);
        }
        assert forall|i: int| 0 <= i < whole.len() && (#[trigger] whole[i]) is Seg implies 0 < i
            && i + 1 < whole.len() && is_slash_tok(whole[i - 1]) && is_slash_tok(whole[i + 1]) by {
            if i < 1 + mid.len() {
                // the token is the segment capture of this segment (if any)
                assert(whole[i] == (seq![slash] + mid)[i]);
                assert(seg_is_var(t, p + 1, e) && e < t.len());
                assert(i == 1);
            } else {
                let j = i - 1 - mid.len();
                assert(whole[i] == rest[j]);
                assert(0 < j);
                assert(whole[i - 1] == rest[j - 1]);
                assert(whole[i + 1] == rest[j + 1]);
            }
        }
        assert forall|i: int|
            0 <= i < whole.len() && (#[trigger] whole[i]) is Lit implies lit_seq(whole[i]).len()
            == 1 by {
            if i == 0 {
                assert(whole[0] == slash);
            } else if i < 1 + mid.len() {
                assert(whole[i] == mid[i - 1]);
                assert(!(seg_is_var(t, p + 1, e) && e < t.len()));
            } else {
                let j = i - 1 - mid.len();
                assert(whole[i] == rest[j]);
            }
        }
    } else {
        let e = next_slash(t, p);
        lemma_next_slash(t, p);
        let pre = seg_toks_from(t, p, e);
        let rest = template_toks_from(t, e);
        lemma_template_toks_delimited(t, e);
        lemma_seg_toks_shape(t, p, e);
        let whole = pre + rest;
        assert(template_toks_from(t, p) == whole);
        assert forall|i: int| 0 <= i < whole.len() && (#[trigger] whole[i]) is Seg implies 0 < i
            && i + 1 < whole.len() && is_slash_tok(whole[i - 1]) && is_slash_tok(whole[i + 1]) by {
            assert(i >= pre.len()) by {
                if i < pre.len() {
                    assert(whole[i] == pre[i]);
                }
            }
            let j = i - pre.len();
            assert(whole[i] == rest[j]);
            assert(0 < j);
            assert(whole[i - 1] == rest[j - 1]);
            assert(whole[i + 1] == rest[j + 1]);
        }
        assert forall|i: int|
            0 <= i < whole.len() && (#[trigger] whole[i]) is Lit implies lit_seq(whole[i]).len()
            == 1 by {
            if i < pre.len() {
                assert(whole[i] == pre[i]);
            } else {
                assert(whole[i] == rest[i - pre.len()]);
            }
        }
        if whole.len() > 0 && whole[0] is Seg {
            if pre.len() > 0 {
                assert(whole[0] == pre[0]);
            } else {
                assert(whole[0] == rest[0]);
            }
        }
    }
}

/// Capture names of a concatenation are the concatenated capture names.
pub proof fn lemma_cap_names_concat(a: Seq<TokView>, b: Seq<TokView>)
    ensures
        cap_names(a + b) =~= cap_names(a) + cap_names(b),
    decreases a.len(),
{
    if a.len() == 0 {
        assert(a + b =~= b);
    } else {
        lemma_cap_names_concat(a.drop_first(), b);
        assert((a + b).drop_first() =~= a.drop_first() + b);
        assert((a + b)[0] == a[0]);
    }
}

/// The capture names of a single token: none for a literal, the name
/// for a capture.
pub proof fn lemma_cap_names_single(x: TokView)
    ensures
        x is Lit ==> cap_names(seq![x]) =~= Seq::<Seq<char>>::empty(),
        x is Seg ==> cap_names(seq![x]) =~= seq![lit_seq(x)],
        x is Tail ==> cap_names(seq![x]) =~= seq![lit_seq(x)],
{
    let single = seq![x];
    assert(single.drop_first() =~= Seq::<TokView>::empty());
    assert(cap_names(single.drop_first()) =~= Seq::<Seq<char>>::empty());
}

/// Prepending a token keeps literal tokens one character long.
proof fn lemma_lits_one_cons(x: TokView, rest: Seq<TokView>)
    requires
        x is Lit ==> lit_seq(x).len() == 1,
        lits_one(rest),
    ensures
        lits_one(seq![x] + rest),
{
    let whole = seq![x] + rest;
    assert forall|k: int|
        0 <= k < whole.len() && (#[trigger] whole[k]) is Lit implies lit_seq(whole[k]).len()
        == 1 by {
        if k > 0 {
            assert(whole[k] == rest[k - 1]);
        } else {
            assert(whole[0] == x);
        }
    }
}

/// Prepending a token that is no segment capture keeps a list free of them.
proof fn lemma_no_seg_cons(x: TokView, rest: Seq<TokView>)
    requires
        !(x is Seg),
        forall|k: int| 0 <= k < rest.len() ==> !((#[trigger] rest[k]) is Seg),
    ensures
        forall|k: int|
            0 <= k < (seq![x] + rest).len() ==> !((#[trigger] (seq![x] + rest)[k]) is Seg),
{
    let whole = seq![x] + rest;
    assert forall|k: int| 0 <= k < whole.len() implies !((#[trigger] whole[k]) is Seg) by {
        if k > 0 {
            assert(whole[k] == rest[k - 1]);
        } else {
            assert(whole[0] == x);
        }
    }
}

/// The capture names of a token list split at any point.
pub proof fn lemma_cap_names_split(tv: Seq<TokView>, m: int)
    requires
        0 <= m <= tv.len(),
    ensures
        cap_names(tv) =~= cap_names(tv.take(m)) + cap_names(tv.skip(m)),
{
    assert(tv =~= tv.take(m) + tv.skip(m));
    lemma_cap_names_concat(tv.take(m), tv.skip(m));
}

/// Passing a literal token adds no capture name.
pub proof fn lemma_names_step_lit(tv: Seq<TokView>, i: int)
    requires
        0 <= i < tv.len(),
        tv[i] is Lit,
    ensures
        cap_names(tv.take(i + 1)) =~= cap_names(tv.take(i)),
{
    assert(tv.take(i + 1) =~= tv.take(i) + seq![tv[i]]);
    lemma_cap_names_concat(tv.take(i), seq![tv[i]]);
    lemma_cap_names_single(tv[i]);
}

/// Passing a capture token appends its name.
pub proof fn lemma_names_step_cap(tv: Seq<TokView>, i: int, nm: Seq<char>)
    requires
        0 <= i < tv.len(),
        tv[i] == TokView::Seg(nm) || tv[i] == TokView::Tail(nm),
    ensures
        cap_names(tv.take(i + 1)) =~= cap_names(tv.take(i)).push(nm),
{
    assert(tv.take(i + 1) =~= tv.take(i) + seq![tv[i]]);
    lemma_cap_names_concat(tv.take(i), seq![tv[i]]);
    lemma_cap_names_single(tv[i]);
    assert(lit_seq(tv[i]) == nm);
    assert(cap_names(tv.take(i)) + seq![nm] =~= cap_names(tv.take(i)).push(nm));
}

/// A capture token with an empty name puts an empty name into the list.
pub proof fn lemma_names_prefix_empty(tv: Seq<TokView>, i: int, nm: Seq<char>)
    requires
        0 <= i < tv.len(),
        tv[i] == TokView::Seg(nm) || tv[i] == TokView::Tail(nm),
        nm.len() == 0,
    ensures
        exists|m: int| 0 <= m < cap_names(tv).len() && (#[trigger] cap_names(tv)[m]).len() == 0,
{
    lemma_names_step_cap(tv, i, nm);
    lemma_cap_names_split(tv, i + 1);
    let a = cap_names(tv.take(i + 1));
    let la = a.len() - 1;
    assert(a[la] == nm);
    assert(cap_names(tv)[la] == a[la]);
}

/// A capture token whose name already occurred makes the list duplicated.
pub proof fn lemma_names_prefix_dup(tv: Seq<TokView>, i: int, nm: Seq<char>, x: int)
    requires
        0 <= i < tv.len(),
        tv[i] == TokView::Seg(nm) || tv[i] == TokView::Tail(nm),
        0 <= x < cap_names(tv.take(i)).len(),
        cap_names(tv.take(i))[x] == nm,
    ensures
        !cap_names(tv).no_duplicates(),
        cap_names(tv).contains(nm),
{
    lemma_names_step_cap(tv, i, nm);
    lemma_cap_names_split(tv, i + 1);
    let a = cap_names(tv.take(i + 1));
    let la = a.len() - 1;
    assert(a[x] == cap_names(tv.take(i))[x]);
    assert(a[la] == nm);
    assert(cap_names(tv)[x] == a[x]);
    assert(cap_names(tv)[la] == a[la]);
    if cap_names(tv).no_duplicates() {
        assert(cap_names(tv)[x] != cap_names(tv)[la]);
    }
    assert(cap_names(tv)[la] == nm);
    assert(cap_names(tv).contains(nm));
}

/// Being delimited includes being closed on the right.
pub proof fn lemma_delimited_implies_closed(toks: Seq<TokView>)
    requires
        seg_delimited(toks),
    ensures
        segs_closed(toks),
{
}

} // verus!
