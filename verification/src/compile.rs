//! Compiling a route template into a `Path`: the executable tokenizer, the
//! compiled pattern type, and the matcher entry point.

use vstd::prelude::*;

use crate::matching::{is_split, match_toks, toks_match};
use crate::path::{standardize_path, standardized};
use crate::pattern::{
    cap_names, is_word_char, lemma_delimited_implies_closed, lemma_names_prefix_dup,
    lemma_names_prefix_empty, lemma_names_step_cap, lemma_names_step_lit,
    lemma_next_slash, lemma_template_toks_delimited, lemma_word_end, lits_one, next_slash,
    seg_delimited, seg_is_var, seg_toks_from, template_toks, template_toks_from,
    tok_views, wild_at, word_end, Tok, TokView,
};

verus! {

/// An error raised while a route template is compiled or registered.
#[derive(Debug)]
pub enum RouterError {
    /// A capture with an empty name (`:` or `*{}`) in the given template.
    MissingVariable(String),
    /// The same capture name appears twice in one template: the template
    /// and the offending name.
    DuplicateVariable(String, String),
    /// A template clashes with an earlier registration of the same shape:
    /// the two raw templates.
    ConflictPath(String, String),
}

/// A compiled dynamic route template.
#[derive(Clone)]
pub struct DynamicPath {
    /// The normalized template text.
    pub raw: String,
    /// The capture names, in scanning order, without duplicates.
    pub vars: Vec<String>,
    /// The compiled tokens.
    pub toks: Vec<Tok>,
}

/// A compiled route template: a template without captures matches by
/// string equality, one with captures by its token sequence.
#[derive(Clone)]
pub enum Path {
    Static(String),
    Dynamic(DynamicPath),
}

impl DynamicPath {
    /// The token sequence of this pattern.
    pub open spec fn toks_view(&self) -> Seq<TokView> {
        tok_views(self.toks@)
    }

    /// A well-formed compiled pattern: its tokens are those of its raw
    /// template, segment captures are delimited by separators, and the
    /// recorded capture names are exactly the tokens' names, non-empty
    /// and without duplicates.
    pub open spec fn wf(&self) -> bool {
        &&& self.toks_view() == template_toks(self.raw@)
        &&& seg_delimited(self.toks_view())
        &&& lits_one(self.toks_view())
        &&& self.vars.deep_view() == cap_names(self.toks_view())
        &&& cap_names(self.toks_view()).no_duplicates()
        &&& forall|i: int|
            0 <= i < cap_names(self.toks_view()).len() ==> (#[trigger] cap_names(
                self.toks_view(),
            )[i]).len() > 0
        &&& cap_names(self.toks_view()).len() > 0
    }
}

impl Path {
    /// A compiled pattern as handed out by `parse`.
    pub open spec fn wf(&self) -> bool {
        match self {
            Path::Static(_) => true,
            Path::Dynamic(d) => d.wf(),
        }
    }

    /// The normalized template text.
    pub open spec fn raw_view(&self) -> Seq<char> {
        match self {
            Path::Static(s) => s@,
            Path::Dynamic(d) => d.raw@,
        }
    }

    /// The normalized template text.
    pub fn raw(&self) -> (r: &str)
        ensures
            r@ == self.raw_view(),
    {
        match self {
            Path::Static(s) => s.as_str(),
            Path::Dynamic(d) => d.raw.as_str(),
        }
    }
}

/// Whether two strings hold the same characters.
pub fn eq_str(a: &str, b: &str) -> (r: bool)
    ensures
        r == (a@ == b@),
{
    let n = a.unicode_len();
    let m = b.unicode_len();
    if n != m {
        return false;
    }
    let mut i: usize = 0;
    while i < n
        invariant
            0 <= i <= n == a@.len(),
            n == m == b@.len(),
            forall|k: int| 0 <= k < i ==> a@[k] == b@[k],
        decreases n - i,
    {
        if a.get_char(i) != b.get_char(i) {
            return false;
        }
        i = i + 1;
    }
    proof {
        assert(a@ =~= b@);
    }
    true
}

/// Whether `c` may stand in a capture name.
fn word_char(c: char) -> (b: bool)
    ensures
        b == is_word_char(c),
{
    ('a' <= c && c <= 'z') || ('A' <= c && c <= 'Z') || ('0' <= c && c <= '9') || c == '_'
}

proof fn lemma_next_slash_at(t: Seq<char>, i: int, j: int)
    requires
        0 <= i <= j <= t.len(),
        forall|k: int| i <= k < j ==> t[k] != '/',
        j < t.len() ==> t[j] == '/',
    ensures
        next_slash(t, i) == j,
    decreases j - i,
{
    if i < j {
        lemma_next_slash_at(t, i + 1, j);
    }
}

proof fn lemma_word_end_at(t: Seq<char>, i: int, j: int, end: int)
    requires
        0 <= i <= j <= end <= t.len(),
        forall|k: int| i <= k < j ==> is_word_char(t[k]),
        j < end ==> !is_word_char(t[j]),
    ensures
        word_end(t, i, end) == j,
    decreases j - i,
{
    if i < j {
        assert(is_word_char(t[i]));
        lemma_word_end_at(t, i + 1, j, end);
    }
}

/// The position of the first separator at or after `i`.
fn find_slash(t: &str, i: usize) -> (r: usize)
    requires
        i <= t@.len(),
    ensures
        r == next_slash(t@, i as int),
        i <= r <= t@.len(),
    decreases t@.len() - i,
{
    let n = t.unicode_len();
    let mut j: usize = i;
    while j < n && t.get_char(j) != '/'
        invariant
            i <= j <= n == t@.len(),
            forall|k: int| i <= k < j ==> t@[k] != '/',
        decreases n - j,
    {
        j = j + 1;
    }
    proof {
        lemma_next_slash_at(t@, i as int, j as int);
    }
    j
}

/// The end of the run of word characters starting at `i`, below `end`.
fn word_scan(t: &str, i: usize, end: usize) -> (r: usize)
    requires
        i <= end <= t@.len(),
    ensures
        r == word_end(t@, i as int, end as int),
        i <= r <= end,
    decreases end - i,
{
    let mut j: usize = i;
    while j < end && word_char(t.get_char(j))
        invariant
            i <= j <= end <= t@.len(),
            forall|k: int| i <= k < j ==> is_word_char(t@[k]),
        decreases end - j,
    {
        j = j + 1;
    }
    proof {
        lemma_word_end_at(t@, i as int, j as int, end as int);
    }
    j
}

/// Scans one separator-free chunk `t[i..end]` into wildcard captures and
/// literal characters.
fn seg_tokenize(t: &str, i: usize, end: usize) -> (r: Vec<Tok>)
    requires
        i <= end <= t@.len(),
    ensures
        tok_views(r@) == seg_toks_from(t@, i as int, end as int),
    decreases end - i,
{
    let mut out: Vec<Tok> = Vec::new();
    if i >= end {
        proof {
            assert(tok_views(out@) =~= seg_toks_from(t@, i as int, end as int));
        }
        return out;
    }
    let c = t.get_char(i);
    if i + 1 < end && c == '*' && t.get_char(i + 1) == '{' {
        let w = word_scan(t, i + 2, end);
        if w < end && t.get_char(w) == '}' {
            proof {
                assert(wild_at(t@, i as int, end as int));
            }
            let name = t.substring_char(i + 2, w).to_owned();
            out.push(Tok::Tail(name));
            let mut rest = seg_tokenize(t, w + 1, end);
            out.append(&mut rest);
            proof {
                assert(out@[0]@ == TokView::Tail(t@.subrange(i + 2, w as int)));
                assert forall|k: int| 0 <= k < out@.len() implies tok_views(out@)[k] == (seq![
                    TokView::Tail(t@.subrange(i + 2, w as int)),
                ] + seg_toks_from(t@, w + 1, end as int))[k] by {
                    if k > 0 {
                        assert(out@[k]@ == seg_toks_from(t@, w + 1, end as int)[k - 1]);
                    }
                }
                assert(tok_views(out@) =~= seq![TokView::Tail(t@.subrange(i + 2, w as int))]
                    + seg_toks_from(t@, w + 1, end as int));
            }
            return out;
        }
        proof {
            lemma_word_end(t@, i + 2, end as int);
            assert(!wild_at(t@, i as int, end as int));
        }
        let lit = t.substring_char(i, i + 1).to_owned();
        out.push(Tok::Lit(lit));
        let mut rest = seg_tokenize(t, i + 1, end);
        out.append(&mut rest);
        proof {
            assert(out@[0]@ == TokView::Lit(t@.subrange(i as int, i + 1)));
            assert forall|k: int| 0 <= k < out@.len() implies tok_views(out@)[k] == (seq![
                TokView::Lit(t@.subrange(i as int, i + 1)),
            ] + seg_toks_from(t@, i + 1, end as int))[k] by {
                if k > 0 {
                    assert(out@[k]@ == seg_toks_from(t@, i + 1, end as int)[k - 1]);
                }
            }
            assert(tok_views(out@) =~= seq![TokView::Lit(t@.subrange(i as int, i + 1))]
                + seg_toks_from(t@, i + 1, end as int));
        }
        return out;
    }
    proof {
        assert(!wild_at(t@, i as int, end as int));
    }
    let lit = t.substring_char(i, i + 1).to_owned();
    out.push(Tok::Lit(lit));
    let mut rest = seg_tokenize(t, i + 1, end);
    out.append(&mut rest);
    proof {
        assert(out@[0]@ == TokView::Lit(t@.subrange(i as int, i + 1)));
        assert forall|k: int| 0 <= k < out@.len() implies tok_views(out@)[k] == (seq![
            TokView::Lit(t@.subrange(i as int, i + 1)),
        ] + seg_toks_from(t@, i + 1, end as int))[k] by {
            if k > 0 {
                assert(out@[k]@ == seg_toks_from(t@, i + 1, end as int)[k - 1]);
            }
        }
        assert(tok_views(out@) =~= seq![TokView::Lit(t@.subrange(i as int, i + 1))]
            + seg_toks_from(t@, i + 1, end as int));
    }
    out
}

/// Scans the template from `p` on into tokens, one segment at a time.
fn tokenize_from(t: &str, p: usize) -> (r: Vec<Tok>)
    requires
        p <= t@.len(),
    ensures
        tok_views(r@) == template_toks_from(t@, p as int),
    decreases t@.len() - p,
{
    let n = t.unicode_len();
    let mut out: Vec<Tok> = Vec::new();
    if p >= n {
        proof {
            assert(tok_views(out@) =~= template_toks_from(t@, p as int));
        }
        return out;
    }
    let c = t.get_char(p);
    if c == '/' {
        let e = find_slash(t, p + 1);
        proof {
            lemma_next_slash(t@, p + 1);
        }
        let is_var = if e - p >= 2 && e < n && t.get_char(p + 1) == ':' {
            let w = word_scan(t, p + 2, e);
            w == e
        } else {
            false
        };
        proof {
            if is_var {
                assert(seg_is_var(t@, p + 1, e as int));
            } else {
                assert(!(seg_is_var(t@, p + 1, e as int) && e < t@.len()));
            }
        }
        let slash_lit = t.substring_char(p, p + 1).to_owned();
        out.push(Tok::Lit(slash_lit));
        if is_var {
            let name = t.substring_char(p + 2, e).to_owned();
            out.push(Tok::Seg(name));
        } else {
            let mut mid = seg_tokenize(t, p + 1, e);
            out.append(&mut mid);
        }
        let ghost mid_v = if seg_is_var(t@, p + 1, e as int) && e < t@.len() {
            seq![TokView::Seg(t@.subrange(p + 2, e as int))]
        } else {
            seg_toks_from(t@, p + 1, e as int)
        };
        proof {
            assert(out@[0]@ == TokView::Lit(t@.subrange(p as int, p + 1)));
            assert(tok_views(out@) =~= seq![TokView::Lit(t@.subrange(p as int, p + 1))] + mid_v)
                by {
                assert forall|k: int| 0 <= k < out@.len() implies tok_views(out@)[k] == (seq![
                    TokView::Lit(t@.subrange(p as int, p + 1)),
                ] + mid_v)[k] by {
                    if k > 0 {
                        assert(out@[k]@ == mid_v[k - 1]);
                    }
                }
            }
        }
        let mut rest = tokenize_from(t, e);
        let ghost pre_v = tok_views(out@);
        out.append(&mut rest);
        proof {
            assert forall|k: int| 0 <= k < out@.len() implies tok_views(out@)[k] == (pre_v
                + template_toks_from(t@, e as int))[k] by {
                if k < pre_v.len() {
                    assert(out@[k]@ == pre_v[k]);
                } else {
                    assert(out@[k]@ == template_toks_from(t@, e as int)[k - pre_v.len()]);
                }
            }
            assert(tok_views(out@) =~= pre_v + template_toks_from(t@, e as int));
            assert(seq![TokView::Lit(t@.subrange(p as int, p + 1))] + mid_v + template_toks_from(
                t@,
                e as int,
            ) =~= pre_v + template_toks_from(t@, e as int));
            assert(tok_views(out@) =~= template_toks_from(t@, p as int));
        }
        out
    } else {
        let e = find_slash(t, p);
        proof {
            lemma_next_slash(t@, p as int);
        }
        let mut pre = seg_tokenize(t, p, e);
        out.append(&mut pre);
        let ghost pre_v = tok_views(out@);
        let mut rest = tokenize_from(t, e);
        out.append(&mut rest);
        proof {
            assert(pre_v == seg_toks_from(t@, p as int, e as int));
            assert forall|k: int| 0 <= k < out@.len() implies tok_views(out@)[k] == (pre_v
                + template_toks_from(t@, e as int))[k] by {
                if k < pre_v.len() {
                    assert(out@[k]@ == pre_v[k]);
                } else {
                    assert(out@[k]@ == template_toks_from(t@, e as int)[k - pre_v.len()]);
                }
            }
            assert(tok_views(out@) =~= pre_v + template_toks_from(t@, e as int));
            assert(tok_views(out@) =~= template_toks_from(t@, p as int));
        }
        out
    }
}

/// Whether some earlier name equals `s`.
fn contains_string(v: &Vec<String>, s: &String) -> (r: bool)
    ensures
        r == v.deep_view().contains(s@),
{
    let mut i: usize = 0;
    let n = v.len();
    while i < n
        invariant
            0 <= i <= n == v@.len(),
            forall|k: int| 0 <= k < i ==> v.deep_view()[k] != s@,
        decreases n - i,
    {
        if v[i].eq(s) {
            proof {
                assert(v.deep_view()[i as int] == s@);
            }
            return true;
        }
        i = i + 1;
    }
    proof {
        if v.deep_view().contains(s@) {
            let k = choose|k: int| 0 <= k < v.deep_view().len() && v.deep_view()[k] == s@;
            assert(v.deep_view()[k] != s@);
        }
    }
    false
}

impl Path {
    /// Compiles a route template. The template is first normalized; a
    /// capture with an empty name or a name used twice fails compilation,
    /// and a template without captures becomes a static pattern.
    pub fn parse(raw_path: &str) -> (r: Result<Path, RouterError>)
        ensures
            ({
                let t = standardized(raw_path@);
                let names = cap_names(template_toks(t));
                match r {
                    Ok(p) => {
                        &&& p.wf()
                        &&& p.raw_view() == t
                        &&& names.no_duplicates()
                        &&& forall|i: int| 0 <= i < names.len() ==> (#[trigger] names[i]).len() > 0
                        &&& (p is Static <==> names.len() == 0)
                        &&& (p matches Path::Dynamic(d) ==> d.vars.deep_view() == names
                            && d.toks_view() == template_toks(t))
                    },
                    Err(RouterError::MissingVariable(pat)) => {
                        &&& pat@ == t
                        &&& exists|i: int| 0 <= i < names.len() && (#[trigger] names[i]).len() == 0
                    },
                    Err(RouterError::DuplicateVariable(pat, var)) => {
                        &&& pat@ == t
                        &&& !names.no_duplicates()
                        &&& names.contains(var@)
                    },
                    Err(RouterError::ConflictPath(_, _)) => false,
                }
            }),
    {
        let t = standardize_path(raw_path);
        let toks = tokenize_from(t.as_str(), 0);
        let ghost tv = tok_views(toks@);
        let ghost names = cap_names(tv);
        proof {
            lemma_template_toks_delimited(t@, 0);
        }
        let n = toks.len();
        let mut vars: Vec<String> = Vec::new();
        let mut i: usize = 0;
        proof {
            assert(tv.take(0) =~= Seq::<TokView>::empty());
            assert(cap_names(tv.take(0)) =~= Seq::<Seq<char>>::empty());
            assert(vars.deep_view() =~= cap_names(tv.take(0)));
        }
        while i < n
            invariant
                0 <= i <= n == toks@.len(),
                tv == tok_views(toks@),
                tv == template_toks(t@),
                t@ == standardized(raw_path@),
                vars.deep_view() == cap_names(tv.take(i as int)),
                vars.deep_view().no_duplicates(),
                forall|k: int|
                    0 <= k < vars.deep_view().len() ==> (#[trigger] vars.deep_view()[k]).len() > 0,
            decreases n - i,
        {
            proof {
                assert(tv[i as int] == toks@[i as int]@);
            }
            match &toks[i] {
                Tok::Lit(_) => {
                    proof {
                        assert(tv[i as int] is Lit);
                        lemma_names_step_lit(tv, i as int);
                        assert(vars.deep_view() =~= cap_names(tv.take(i + 1)));
                    }
                },
                Tok::Seg(nm) => {
                    proof {
                        assert(tv[i as int] == TokView::Seg(nm@));
                    }
                    if nm.as_str().is_empty() {
                        proof {
                            lemma_names_prefix_empty(tv, i as int, nm@);
                            let pnames = cap_names(template_toks(standardized(raw_path@)));
                            assert(pnames == cap_names(tv));
                            let m = choose|m: int|
                                0 <= m < cap_names(tv).len() && (#[trigger] cap_names(tv)[m]).len()
                                    == 0;
                            assert(0 <= m < pnames.len() && pnames[m].len() == 0);
                        }
                        return Err(RouterError::MissingVariable(t));
                    }
                    if contains_string(&vars, nm) {
                        let var = nm.clone();
                        proof {
                            assert(vars.deep_view().contains(nm@));
                            let x = choose|x: int|
                                0 <= x < vars.deep_view().len() && vars.deep_view()[x] == nm@;
                            assert(vars.deep_view()[x] == nm@);
                            assert(vars.deep_view() == cap_names(tv.take(i as int)));
                            assert(cap_names(tv.take(i as int))[x] == nm@);
                            lemma_names_prefix_dup(tv, i as int, nm@, x);
                            assert(var@ == nm@);
                            assert(cap_names(tv).contains(nm@));
                            let pnames = cap_names(template_toks(standardized(raw_path@)));
                            assert(pnames == cap_names(tv));
                            assert(!pnames.no_duplicates());
                            assert(pnames.contains(var@));
                        }
                        return Err(RouterError::DuplicateVariable(t, var));
                    }
                    let owned = nm.clone();
                    let ghost old_vars = vars.deep_view();
                    vars.push(owned);
                    proof {
                        lemma_names_step_cap(tv, i as int, nm@);
                        assert(vars.deep_view() =~= old_vars.push(nm@));
                        assert(vars.deep_view() =~= cap_names(tv.take(i + 1)));
                        lemma_no_dup_push(old_vars, nm@);
                    }
                },
                Tok::Tail(nm) => {
                    proof {
                        assert(tv[i as int] == TokView::Tail(nm@));
                    }
                    if nm.as_str().is_empty() {
                        proof {
                            lemma_names_prefix_empty(tv, i as int, nm@);
                            let pnames = cap_names(template_toks(standardized(raw_path@)));
                            assert(pnames == cap_names(tv));
                            let m = choose|m: int|
                                0 <= m < cap_names(tv).len() && (#[trigger] cap_names(tv)[m]).len()
                                    == 0;
                            assert(0 <= m < pnames.len() && pnames[m].len() == 0);
                        }
                        return Err(RouterError::MissingVariable(t));
                    }
                    if contains_string(&vars, nm) {
                        let var = nm.clone();
                        proof {
                            assert(vars.deep_view().contains(nm@));
                            let x = choose|x: int|
                                0 <= x < vars.deep_view().len() && vars.deep_view()[x] == nm@;
                            assert(vars.deep_view()[x] == nm@);
                            assert(vars.deep_view() == cap_names(tv.take(i as int)));
                            assert(cap_names(tv.take(i as int))[x] == nm@);
                            lemma_names_prefix_dup(tv, i as int, nm@, x);
                            assert(var@ == nm@);
                            assert(cap_names(tv).contains(nm@));
                            let pnames = cap_names(template_toks(standardized(raw_path@)));
                            assert(pnames == cap_names(tv));
                            assert(!pnames.no_duplicates());
                            assert(pnames.contains(var@));
                        }
                        return Err(RouterError::DuplicateVariable(t, var));
                    }
                    let owned = nm.clone();
                    let ghost old_vars = vars.deep_view();
                    vars.push(owned);
                    proof {
                        lemma_names_step_cap(tv, i as int, nm@);
                        assert(vars.deep_view() =~= old_vars.push(nm@));
                        assert(vars.deep_view() =~= cap_names(tv.take(i + 1)));
                        lemma_no_dup_push(old_vars, nm@);
                    }
                },
            }
            i = i + 1;
        }
        proof {
            assert(tv.take(n as int) =~= tv);
            assert(vars.deep_view() =~= names);
        }
        if vars.len() == 0 {
            proof {
                assert(names.len() == 0);
            }
            Ok(Path::Static(t))
        } else {
            proof {
                assert(names.len() > 0);
            }
            Ok(Path::Dynamic(DynamicPath { raw: t, vars, toks }))
        }
    }

    /// Matches a path against this pattern. A static pattern matches by
    /// character equality; a dynamic one matches when its tokens split
    /// the path, and then returns one pair per capture, in order.
    pub fn matches(&self, path: &str) -> (r: Option<Vec<(String, String)>>)
        requires
            self.wf(),
        ensures
            match self {
                Path::Static(s) => (r is Some <==> path@ == s@) && (r matches Some(v) ==> v@.len()
                    == 0),
                Path::Dynamic(d) => match r {
                    Some(pairs) => {
                        &&& pair_firsts(pairs.deep_view()) == d.vars.deep_view()
                        &&& is_split(d.toks_view(), path@, pair_seconds(pairs.deep_view()))
                    },
                    None => !toks_match(d.toks_view(), path@),
                },
            },
    {
        match self {
            Path::Static(s) => {
                if eq_str(s.as_str(), path) {
                    let r: Vec<(String, String)> = Vec::new();
                    Some(r)
                } else {
                    None
                }
            },
            Path::Dynamic(d) => {
                proof {
                    lemma_delimited_implies_closed(d.toks_view());
                }
                match match_toks(&d.toks, path) {
                    None => None,
                    Some(vals) => {
                        proof {
                            crate::matching::lemma_split_caps_len(
                                d.toks_view(),
                                path@,
                                vals.deep_view(),
                            );
                        }
                        let m = d.vars.len();
                        let mut pairs: Vec<(String, String)> = Vec::new();
                        let mut i: usize = 0;
                        while i < m
                            invariant
                                0 <= i <= m == d.vars@.len(),
                                vals@.len() == m,
                                vals.deep_view().len() == m,
                                pairs.deep_view().len() == i,
                                forall|k: int|
                                    0 <= k < i ==> (#[trigger] pairs.deep_view()[k]).0
                                        == d.vars.deep_view()[k] && pairs.deep_view()[k].1
                                        == vals.deep_view()[k],
                            decreases m - i,
                        {
                            let name = d.vars[i].clone();
                            let value = vals[i].clone();
                            let ghost oldp = pairs;
                            pairs.push((name, value));
                            proof {
                                assert forall|k: int|
                                    0 <= k < i + 1 implies (#[trigger] pairs.deep_view()[k]).0
                                    == d.vars.deep_view()[k] && pairs.deep_view()[k].1
                                    == vals.deep_view()[k] by {
                                    if k < i {
                                        assert(pairs@[k] == oldp@[k]);
                                        assert(oldp.deep_view()[k].0 == d.vars.deep_view()[k]);
                                        assert(oldp.deep_view()[k].1 == vals.deep_view()[k]);
                                    } else {
                                        assert(pairs@[k] == (name, value));
                                        assert(name@ == d.vars@[k]@);
                                        assert(value@ == vals@[k]@);
                                    }
                                }
                            }
                            i = i + 1;
                        }
                        proof {
                            assert(pair_firsts(pairs.deep_view()) =~= d.vars.deep_view());
                            assert(pair_seconds(pairs.deep_view()) =~= vals.deep_view());
                        }
                        Some(pairs)
                    },
                }
            },
        }
    }
}

/// The first components of a sequence of pairs.
pub open spec fn pair_firsts(ps: Seq<(Seq<char>, Seq<char>)>) -> Seq<Seq<char>> {
    ps.map_values(|p: (Seq<char>, Seq<char>)| p.0)
}

/// The second components of a sequence of pairs.
pub open spec fn pair_seconds(ps: Seq<(Seq<char>, Seq<char>)>) -> Seq<Seq<char>> {
    ps.map_values(|p: (Seq<char>, Seq<char>)| p.1)
}

/// Pushing a fresh element keeps a list duplicate-free.
proof fn lemma_no_dup_push(s: Seq<Seq<char>>, x: Seq<char>)
    requires
        s.no_duplicates(),
        !s.contains(x),
    ensures
        s.push(x).no_duplicates(),
{
    assert forall|i: int, j: int|
        0 <= i < j < s.push(x).len() implies s.push(x)[i] != s.push(x)[j] by {
        if j < s.len() {
        } else {
            assert(s.push(x)[j] == x);
            assert(s.push(x)[i] == s[i]);
            if s[i] == x {
                assert(s.contains(x));
            }
        }
    }
}

} // verus!
