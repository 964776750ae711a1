//! The three template dialects: their grammar as spec functions, and the scanner
//! that all three share.
use vstd::prelude::*;
use crate::text::{is_name_char, is_space};
use crate::error::SyntaxError;
use crate::text::{slice_string, chars_of, string_of, text_of};
use crate::tmpl::{Seg, ArgM, Segment, Template, Arg, seg_model, segs_model, tpl_model};

pub mod bash;
pub mod jynx;
pub mod simple;

verus! {

/// A template dialect.
#[derive(Debug, Clone, Copy, PartialEq, Eq)]
pub enum Dialect {
    /// `$NAME`, `${NAME}`, `$$`.
    Shell,
    /// `${NAME}`, `$$`, `%name:arg(body)(body)...`.
    Markup,
    /// `{{name}}`, `{{name:arg(body)...}}`, `{{! comment }}`.
    Brace,
}

/// The length of the longest prefix of `s` whose characters all fail `stop`.
pub open spec fn run_until(s: Seq<char>, stop: spec_fn(char) -> bool) -> nat
    decreases s.len(),
{
    if s.len() == 0 || stop(s[0]) {
        0
    } else {
        1 + run_until(s.skip(1), stop)
    }
}

/// Whether `s` holds `{{`.
pub open spec fn has_double_brace(s: Seq<char>) -> bool {
    exists|i: int| 0 <= i < s.len() - 1 && #[trigger] s[i] == '{' && s[i + 1] == '{'
}

/// Stops at a character that cannot be part of a name.
pub open spec fn stop_name() -> spec_fn(char) -> bool {
    |c: char| !is_name_char(c)
}

/// Stops at `}`.
pub open spec fn stop_rbrace() -> spec_fn(char) -> bool {
    |c: char| c == '}'
}

/// Stops at the end of a call's argument token: `(` or white space.
pub open spec fn stop_arg() -> spec_fn(char) -> bool {
    |c: char| c == '(' || is_space(c)
}

/// Stops at a character that cannot be part of a double-brace variable.
pub open spec fn stop_var() -> spec_fn(char) -> bool {
    |c: char| !(is_name_char(c) || c == '.')
}

/// Stops at a character that is not white space.
pub open spec fn stop_text() -> spec_fn(char) -> bool {
    |c: char| !is_space(c)
}

/// Where the group opened just before `s` closes, when `depth` groups are open:
/// the index of the matching `)`.
pub open spec fn close_paren(s: Seq<char>, depth: nat) -> Option<nat>
    decreases s.len(),
{
    if s.len() == 0 {
        None
    } else {
        let d = if s[0] == '(' {
            depth + 1
        } else if s[0] == ')' {
            (depth - 1) as nat
        } else {
            depth
        };
        if s[0] == ')' && depth <= 1 {
            Some(0)
        } else {
            match close_paren(s.skip(1), d) {
                Some(k) => Some(k + 1),
                None => None,
            }
        }
    }
}

/// The texts of the parenthesized groups that `s` starts with, one right after another,
/// and the length they take; `None` when one of them is not closed.
pub open spec fn paren_groups(s: Seq<char>) -> Option<(Seq<Seq<char>>, nat)>
    decreases s.len(),
    via paren_groups_decreases
{
    if s.len() == 0 || s[0] != '(' {
        Some((Seq::empty(), 0))
    } else {
        match close_paren(s.skip(1), 1) {
            None => None,
            Some(k) => {
                let rest = s.skip(k + 2int);
                match paren_groups(rest) {
                    None => None,
                    Some((gs, l)) => Some((seq![s.subrange(1, k + 1int)] + gs, k + 2 + l)),
                }
            },
        }
    }
}

proof fn lemma_close_paren_bound(s: Seq<char>, depth: nat)
    ensures
        close_paren(s, depth) matches Some(k) ==> k < s.len(),
    decreases s.len(),
{
    if s.len() > 0 {
        let d = if s[0] == '(' {
            depth + 1
        } else if s[0] == ')' {
            (depth - 1) as nat
        } else {
            depth
        };
        lemma_close_paren_bound(s.skip(1), d);
    }
}

#[via_fn]
proof fn paren_groups_decreases(s: Seq<char>) {
    if s.len() > 0 && s[0] == '(' {
        lemma_close_paren_bound(s.skip(1), 1);
    }
}

/// A name of `[A-Za-z0-9_-]+`.
pub open spec fn valid_name(n: Seq<char>) -> bool {
    n.len() > 0 && forall|i: int| 0 <= i < n.len() ==> is_name_char(#[trigger] n[i])
}

/// Whether `c` starts a bare `$NAME`.
pub open spec fn is_name_start(c: char) -> bool {
    ('a' <= c && c <= 'z') || ('A' <= c && c <= 'Z') || c == '_'
}

/// The reserved call name of the iteration construct.
pub open spec fn for_name() -> Seq<char> {
    seq!['f', 'o', 'r']
}

/// `${NAME}` at the start of `s` (which starts with `${`): the variable and the length,
/// or `None` when the brace is not closed or the name is not valid.
pub open spec fn braced_tok(s: Seq<char>) -> Option<(Option<Seg>, nat)> {
    let r = s.skip(2);
    let k = run_until(r, stop_rbrace());
    if k == r.len() || !valid_name(r.take(k as int)) {
        None
    } else {
        Some((Some(Seg::Var(r.take(k as int))), k + 3))
    }
}

/// The segment that a call `name:arg(g1)(g2)...` stands for, given its parsed groups.
pub open spec fn call_seg(name: Seq<char>, arg: Seq<char>, groups: Seq<Seq<Seg>>) -> Seg {
    if name == for_name() {
        Seg::Each(
            arg,
            groups[0],
            if groups.len() > 1 {
                groups[1]
            } else {
                Seq::empty()
            },
            if groups.len() > 2 {
                Some(groups[2])
            } else {
                None
            },
        )
    } else {
        Seg::Call(
            name,
            seq![ArgM::Text(arg)] + groups.map_values(|g: Seq<Seg>| ArgM::Sub(g)),
        )
    }
}

/// Merges each run of adjacent literal segments into one.
pub open spec fn coalesce(t: Seq<Seg>) -> Seq<Seg>
    decreases t.len(),
{
    if t.len() == 0 {
        Seq::empty()
    } else {
        let c = coalesce(t.drop_last());
        match t.last() {
            Seg::Lit(x) => with_lit(c, x),
            g => c.push(g),
        }
    }
}

/// Appends literal text to a template, extending its last segment when that is a literal.
pub open spec fn with_lit(c: Seq<Seg>, x: Seq<char>) -> Seq<Seg> {
    if c.len() > 0 && c.last() is Lit {
        c.update(c.len() - 1, Seg::Lit(c.last()->Lit_0 + x))
    } else {
        c.push(Seg::Lit(x))
    }
}

/// The template that `s` parses to in dialect `d`, or `None` when `s` is malformed.
pub open spec fn parse_spec(d: Dialect, s: Seq<char>) -> Option<Seq<Seg>>
    decreases s.len(), 4nat,
{
    match toks(d, s) {
        Some(t) => Some(coalesce(t)),
        None => None,
    }
}

/// The segments of `s`, token by token, before literals are merged.
pub open spec fn toks(d: Dialect, s: Seq<char>) -> Option<Seq<Seg>>
    decreases s.len(), 3nat,
{
    if s.len() == 0 {
        Some(Seq::empty())
    } else {
        match tok(d, s) {
            None => None,
            Some((g, n)) => if 0 < n <= s.len() {
                match toks(d, s.skip(n as int)) {
                    None => None,
                    Some(r) => Some(
                        match g {
                            Some(x) => seq![x] + r,
                            None => r,
                        },
                    ),
                }
            } else {
                None
            },
        }
    }
}

/// The first token of the non-empty text `s`: the segment it yields (if any) and its
/// length, or `None` when it is malformed.
pub open spec fn tok(d: Dialect, s: Seq<char>) -> Option<(Option<Seg>, nat)>
    decreases s.len(), 2nat,
{
    match d {
        Dialect::Shell => shell_tok(s),
        Dialect::Markup => markup_tok(s),
        Dialect::Brace => brace_tok(s),
    }
}

/// Each of `gs` parsed in dialect `d`; every one of them is shorter than `lim`.
pub open spec fn parse_groups(d: Dialect, gs: Seq<Seq<char>>, lim: nat) -> Option<
    Seq<Seq<Seg>>,
>
    decreases lim, gs.len(),
{
    if gs.len() == 0 {
        Some(Seq::empty())
    } else if gs.last().len() >= lim {
        None
    } else {
        match parse_groups(d, gs.drop_last(), lim) {
            None => None,
            Some(ps) => match parse_spec(d, gs.last()) {
                None => None,
                Some(p) => Some(ps.push(p)),
            },
        }
    }
}

/// Shell-style: `$$`, `$NAME`, `${NAME}`, or one literal character.
pub open spec fn shell_tok(s: Seq<char>) -> Option<(Option<Seg>, nat)> {
    if s[0] == '$' && s.len() >= 2 && s[1] == '$' {
        Some((Some(Seg::Lit(seq!['$'])), 2))
    } else if s[0] == '$' && s.len() >= 2 && is_name_start(s[1]) {
        let n = 2 + run_until(s.skip(2), stop_name());
        Some((Some(Seg::Var(s.subrange(1, n as int))), n))
    } else if s[0] == '$' && s.len() >= 2 && s[1] == '{' {
        braced_tok(s)
    } else {
        Some((Some(Seg::Lit(seq![s[0]])), 1))
    }
}

/// Markup-style: `$$`, `${NAME}`, a call `%name:arg(g1)(g2)...`, or one literal character.
pub open spec fn markup_tok(s: Seq<char>) -> Option<(Option<Seg>, nat)>
    decreases s.len(), 1nat,
{
    if s[0] == '$' && s.len() >= 2 && s[1] == '$' {
        Some((Some(Seg::Lit(seq!['$'])), 2))
    } else if s[0] == '$' && s.len() >= 2 && s[1] == '{' {
        braced_tok(s)
    } else if s[0] == '%' {
        let p: int = 1 + run_until(s.skip(1), stop_name()) as int;
        let q: int = p + 1 + run_until(s.skip(p + 1), stop_arg());
        if p == 1 || p >= s.len() || s[p as int] != ':' || q >= s.len() || s[q as int] != '(' {
            Some((Some(Seg::Lit(seq!['%'])), 1))
        } else {
            match paren_groups(s.skip(q as int)) {
                None => None,
                Some((gs, l)) => match parse_groups(Dialect::Markup, gs, (s.len() - 1) as nat) {
                    None => None,
                    Some(ps) => Some(
                        (
                            Some(call_seg(s.subrange(1, p as int), s.subrange(p + 1, q as int), ps)),
                            (q + l) as nat,
                        ),
                    ),
                },
            }
        }
    } else {
        Some((Some(Seg::Lit(seq![s[0]])), 1))
    }
}

/// `s` without leading and trailing white space.
pub open spec fn trim(s: Seq<char>) -> Seq<char> {
    let a = run_until(s, stop_text());
    let t = s.skip(a as int);
    let b = run_until(t.reverse(), stop_text());
    t.take(t.len() - b)
}

/// A variable of the double-brace dialect: `[A-Za-z0-9_.-]+`.
pub open spec fn brace_var(n: Seq<char>) -> bool {
    n.len() > 0 && forall|i: int| 0 <= i < n.len() ==> !stop_var()(#[trigger] n[i])
}

/// Double-brace style: a `{{...}}` block (a comment, a variable, a call, or else literal
/// text as it stands), an unclosed `{{`, or one literal character.
pub open spec fn brace_tok(s: Seq<char>) -> Option<(Option<Seg>, nat)>
    decreases s.len(), 1nat,
{
    if s[0] == '{' && s.len() >= 2 && s[1] == '{' {
        let r = s.skip(2);
        let k = close_braces(r);
        if k + 1 >= r.len() {
            Some((Some(Seg::Lit(seq!['{', '{'])), 2))
        } else {
            let inner = trim(r.take(k as int));
            let n = k + 4;
            if inner.len() > 0 && inner[0] == '!' {
                Some((None, n))
            } else if brace_var(inner) {
                Some((Some(Seg::Var(inner)), n))
            } else {
                match brace_call(inner, (s.len() - 1) as nat) {
                    Some(None) => None,
                    Some(Some(g)) => Some((Some(g), n)),
                    None => Some((Some(Seg::Lit(s.take(n as int))), n)),
                }
            }
        }
    } else {
        Some((Some(Seg::Lit(seq![s[0]])), 1))
    }
}

/// The index of the first `}}` in `r`; at least `r.len() - 1` when there is none.
pub open spec fn close_braces(r: Seq<char>) -> nat
    decreases r.len(),
{
    if r.len() < 2 || (r[0] == '}' && r[1] == '}') {
        0
    } else {
        1 + close_braces(r.skip(1))
    }
}

/// The inside of a double-brace block read as a call `name:arg(g1)(g2)...` that takes
/// the whole of it: `None` when it has another shape, `Some(None)` when a body is
/// malformed shell-style text, else the segment.
pub open spec fn brace_call(inner: Seq<char>, lim: nat) -> Option<Option<Seg>>
    decreases lim + 1, 0nat,
{
    let p: int = run_until(inner, stop_name()) as int;
    let q: int = p + 1 + run_until(inner.skip(p + 1), stop_arg());
    if p == 0 || p >= inner.len() || inner[p as int] != ':' || q >= inner.len() || inner[q as int]
        != '(' {
        None
    } else {
        match paren_groups(inner.skip(q as int)) {
            None => None,
            Some((gs, l)) => if q + l != inner.len() {
                None
            } else {
                match parse_groups(Dialect::Shell, gs, lim) {
                    None => Some(None),
                    Some(ps) => Some(
                        Some(call_seg(inner.take(p as int), inner.subrange(p + 1, q as int), ps)),
                    ),
                }
            },
        }
    }
}

// ---- the scanner ----

/// The character classes that the scanner stops at.
#[derive(Clone, Copy)]
enum Stop {
    Name,
    RBrace,
    Arg,
    Text,
    Var,
}

spec fn stop_of(k: Stop) -> spec_fn(char) -> bool {
    match k {
        Stop::Name => stop_name(),
        Stop::RBrace => stop_rbrace(),
        Stop::Arg => stop_arg(),
        Stop::Text => stop_text(),
        Stop::Var => stop_var(),
    }
}

fn stops(k: Stop, c: char) -> (r: bool)
    ensures
        r == stop_of(k)(c),
{
    match k {
        Stop::Name => !crate::text::name_char(c),
        Stop::RBrace => c == '}',
        Stop::Arg => c == '(' || crate::text::space(c),
        Stop::Text => !crate::text::space(c),
        Stop::Var => !(crate::text::name_char(c) || c == '.'),
    }
}

pub(crate) proof fn lemma_run_until(s: Seq<char>, stop: spec_fn(char) -> bool, k: int)
    requires
        0 <= k <= s.len(),
        forall|j: int| 0 <= j < k ==> !stop(#[trigger] s[j]),
        k == s.len() || stop(s[k]),
    ensures
        run_until(s, stop) == k,
    decreases k,
{
    if k > 0 {
        assert forall|j: int| 0 <= j < k - 1 implies !stop(#[trigger] s.skip(1)[j]) by {
            assert(s.skip(1)[j] == s[j + 1]);
        }
        lemma_run_until(s.skip(1), stop, k - 1);
    }
}

/// The end of the run of characters from `i` that `k` does not stop at.
fn scan(cs: &Vec<char>, i: usize, hi: usize, k: Stop) -> (r: usize)
    requires
        i <= hi <= cs.len(),
    ensures
        i <= r <= hi,
        r - i == run_until(cs@.subrange(i as int, hi as int), stop_of(k)),
{
    let mut j: usize = i;
    while j < hi && !stops(k, cs[j])
        invariant
            i <= j <= hi <= cs.len(),
            forall|m: int| i <= m < j ==> !stop_of(k)(#[trigger] cs@[m]),
        decreases hi - j,
    {
        j = j + 1;
    }
    proof {
        let s = cs@.subrange(i as int, hi as int);
        assert forall|m: int| 0 <= m < j - i implies !stop_of(k)(#[trigger] s[m]) by {
            assert(s[m] == cs@[i + m]);
        }
        lemma_run_until(s, stop_of(k), j - i);
    }
    j
}

pub(crate) proof fn lemma_run_until_facts(s: Seq<char>, stop: spec_fn(char) -> bool)
    ensures
        run_until(s, stop) <= s.len(),
        forall|j: int| 0 <= j < run_until(s, stop) ==> !stop(#[trigger] s[j]),
        run_until(s, stop) < s.len() ==> stop(s[run_until(s, stop) as int]),
    decreases s.len(),
{
    if s.len() > 0 && !stop(s[0]) {
        lemma_run_until_facts(s.skip(1), stop);
        assert forall|j: int| 0 <= j < run_until(s, stop) implies !stop(#[trigger] s[j]) by {
            if j > 0 {
                assert(s[j] == s.skip(1)[j - 1]);
            }
        }
    }
}

/// Whether `cs[lo..hi]` is a valid name.
fn is_valid_name(cs: &Vec<char>, lo: usize, hi: usize) -> (r: bool)
    requires
        lo <= hi <= cs.len(),
    ensures
        r == valid_name(cs@.subrange(lo as int, hi as int)),
{
    let e = scan(cs, lo, hi, Stop::Name);
    proof {
        let n = cs@.subrange(lo as int, hi as int);
        lemma_run_until_facts(n, stop_name());
        if e == hi && hi > lo {
            assert forall|m: int| 0 <= m < n.len() implies is_name_char(#[trigger] n[m]) by {
                assert(!stop_name()(n[m]));
            }
        }
        if e < hi {
            assert(stop_name()(n[e - lo]));
        }
    }
    e == hi && hi > lo
}

/// The model of a token's segment.
pub open spec fn opt_seg(g: Option<Segment>) -> Option<Seg> {
    match g {
        Some(x) => Some(seg_model(x)),
        None => None,
    }
}

/// `r` is what a token scanner returns for the spec token `t`, and the token is not
/// longer than `room`.
pub open spec fn tok_ok(
    r: Result<(Option<Segment>, usize), SyntaxError>,
    t: Option<(Option<Seg>, nat)>,
    room: int,
) -> bool {
    match r {
        Ok((g, n)) => t == Some((opt_seg(g), n as nat)) && 0 < n <= room,
        Err(e) => t is None && e is ResolveError,
    }
}

/// `${NAME}` at `i`.
pub(crate) fn braced_token(cs: &Vec<char>, i: usize, hi: usize) -> (r: Result<
    (Option<Segment>, usize),
    SyntaxError,
>)
    requires
        i + 1 < hi <= cs.len(),
        cs@[i as int] == '$',
        cs@[i + 1] == '{',
    ensures
        tok_ok(r, braced_tok(cs@.subrange(i as int, hi as int)), hi - i),
{
    let ghost s = cs@.subrange(i as int, hi as int);
    let e = scan(cs, i + 2, hi, Stop::RBrace);
    proof {
        assert(s.skip(2) =~= cs@.subrange(i + 2, hi as int));
        assert(s.skip(2).take(e - i - 2) =~= cs@.subrange(i + 2, e as int));
    }
    if e == hi {
        return Err(SyntaxError::ResolveError(text_of("Unclosed ${ in template")));
    }
    if !is_valid_name(cs, i + 2, e) {
        let name = slice_string(cs, i + 2, e);
        let msg = text_of("Invalid var name: ").concat(name.as_str());
        return Err(SyntaxError::ResolveError(msg));
    }
    let name = slice_string(cs, i + 2, e);
    Ok((Some(Segment::Var(name)), e + 1 - i))
}

/// A shell-style token at `i`.
pub(crate) fn shell_token(cs: &Vec<char>, i: usize, hi: usize) -> (r: Result<
    (Option<Segment>, usize),
    SyntaxError,
>)
    requires
        i < hi <= cs.len(),
    ensures
        tok_ok(r, shell_tok(cs@.subrange(i as int, hi as int)), hi - i),
{
    let ghost s = cs@.subrange(i as int, hi as int);
    proof {
        reveal_strlit("$");
    }
    if cs[i] == '$' && i + 1 < hi && cs[i + 1] == '$' {
        proof {
            assert("$"@ =~= seq!['$']);
        }
        return Ok((Some(Segment::Lit(text_of("$"))), 2));
    }
    if cs[i] == '$' && i + 1 < hi && (('a' <= cs[i + 1] && cs[i + 1] <= 'z') || ('A' <= cs[i + 1]
        && cs[i + 1] <= 'Z') || cs[i + 1] == '_') {
        let e = scan(cs, i + 2, hi, Stop::Name);
        proof {
            assert(s.skip(2) =~= cs@.subrange(i + 2, hi as int));
            assert(s.subrange(1, e - i) =~= cs@.subrange(i + 1, e as int));
        }
        let name = slice_string(cs, i + 1, e);
        return Ok((Some(Segment::Var(name)), e - i));
    }
    if cs[i] == '$' && i + 1 < hi && cs[i + 1] == '{' {
        return braced_token(cs, i, hi);
    }
    let one = string_of(&[cs[i]]);
    proof {
        assert(one@ =~= seq![s[0]]);
    }
    Ok((Some(Segment::Lit(one)), 1))
}

/// Whether `cs[lo..hi]` is a double-brace variable.
fn is_brace_var(cs: &Vec<char>, lo: usize, hi: usize) -> (r: bool)
    requires
        lo <= hi <= cs.len(),
    ensures
        r == brace_var(cs@.subrange(lo as int, hi as int)),
{
    let e = scan(cs, lo, hi, Stop::Var);
    proof {
        let n = cs@.subrange(lo as int, hi as int);
        lemma_run_until_facts(n, stop_var());
        if e < hi {
            assert(stop_var()(n[e - lo]));
        }
    }
    e == hi && hi > lo
}

/// Whether `cs[lo..hi]` is the reserved name `for`.
fn is_for(cs: &Vec<char>, lo: usize, hi: usize) -> (r: bool)
    requires
        lo <= hi <= cs.len(),
    ensures
        r == (cs@.subrange(lo as int, hi as int) == for_name()),
{
    let ghost n = cs@.subrange(lo as int, hi as int);
    if hi - lo != 3 {
        proof {
            assert(n.len() != for_name().len());
        }
        return false;
    }
    proof {
        assert(n[0] == cs@[lo as int] && n[1] == cs@[lo + 1] && n[2] == cs@[lo + 2]);
    }
    let r = cs[lo] == 'f' && cs[lo + 1] == 'o' && cs[lo + 2] == 'r';
    proof {
        if r {
            assert(n =~= for_name());
        } else {
            assert(n[0] != 'f' || n[1] != 'o' || n[2] != 'r');
            assert(for_name()[0] == 'f' && for_name()[1] == 'o' && for_name()[2] == 'r');
        }
    }
    r
}

/// The index of the `)` that closes the group opened just before `i`.
fn match_paren(cs: &Vec<char>, i: usize, hi: usize) -> (r: Option<usize>)
    requires
        i <= hi <= cs.len(),
    ensures
        match r {
            Some(c) => i <= c < hi && close_paren(cs@.subrange(i as int, hi as int), 1) == Some(
                (c - i) as nat,
            ),
            None => close_paren(cs@.subrange(i as int, hi as int), 1) is None,
        },
{
    let mut extra: usize = 0;
    let mut j: usize = i;
    while j < hi
        invariant
            i <= j <= hi <= cs.len(),
            extra <= j - i,
            close_paren(cs@.subrange(i as int, hi as int), 1) == match close_paren(
                cs@.subrange(j as int, hi as int),
                (extra + 1) as nat,
            ) {
                Some(k) => Some((k + (j - i)) as nat),
                None => None,
            },
        decreases hi - j,
    {
        proof {
            assert(cs@.subrange(j as int, hi as int).skip(1) =~= cs@.subrange(j + 1, hi as int));
        }
        if cs[j] == ')' && extra == 0 {
            return Some(j);
        }
        if cs[j] == '(' {
            extra = extra + 1;
        } else if cs[j] == ')' {
            extra = extra - 1;
        }
        j = j + 1;
    }
    None
}

/// The texts of the given ranges of `cs`.
pub open spec fn range_texts(cs: Seq<char>, rs: Seq<(usize, usize)>) -> Seq<Seq<char>> {
    rs.map_values(|r: (usize, usize)| cs.subrange(r.0 as int, r.1 as int))
}

/// The parenthesized groups that start at `q`: their text ranges and the length they take.
fn scan_groups(cs: &Vec<char>, q: usize, hi: usize) -> (r: Option<(Vec<(usize, usize)>, usize)>)
    requires
        q <= hi <= cs.len(),
    ensures
        match r {
            None => paren_groups(cs@.subrange(q as int, hi as int)) is None,
            Some((rs, l)) => {
                &&& paren_groups(cs@.subrange(q as int, hi as int)) == Some(
                    (range_texts(cs@, rs@), l as nat),
                )
                &&& q + l <= hi
                &&& forall|m: int|
                    0 <= m < rs@.len() ==> q < (#[trigger] rs@[m]).0 <= rs@[m].1 < q + l
            },
        },
{
    let mut rs: Vec<(usize, usize)> = Vec::new();
    let mut j: usize = q;
    while j < hi && cs[j] == '('
        invariant
            q <= j <= hi <= cs.len(),
            forall|m: int| 0 <= m < rs@.len() ==> q < (#[trigger] rs@[m]).0 <= rs@[m].1 < j,
            paren_groups(cs@.subrange(q as int, hi as int)) == match paren_groups(
                cs@.subrange(j as int, hi as int),
            ) {
                Some((gs, l)) => Some((range_texts(cs@, rs@) + gs, (l + (j - q)) as nat)),
                None => None,
            },
        decreases hi - j,
    {
        let ghost s = cs@.subrange(j as int, hi as int);
        proof {
            assert(s.skip(1) =~= cs@.subrange(j + 1, hi as int));
        }
        match match_paren(cs, j + 1, hi) {
            None => {
                return None;
            },
            Some(c) => {
                let ghost before = rs@;
                rs.push((j + 1, c));
                proof {
                    let k = c - j - 1;
                    assert(s.skip(k + 2) =~= cs@.subrange(c + 1, hi as int));
                    assert(s.subrange(1, k + 1) =~= cs@.subrange(j + 1, c as int));
                    assert(range_texts(cs@, rs@) =~= range_texts(cs@, before).push(
                        cs@.subrange(j + 1, c as int),
                    ));
                    match paren_groups(cs@.subrange(c + 1, hi as int)) {
                        Some((gs, l)) => {
                            assert(range_texts(cs@, before) + (seq![
                                cs@.subrange(j + 1, c as int),
                            ] + gs) =~= range_texts(cs@, rs@) + gs);
                        },
                        None => {},
                    }
                }
                j = c + 1;
            },
        }
    }
    proof {
        assert(range_texts(cs@, rs@) + Seq::<Seq<char>>::empty() =~= range_texts(cs@, rs@));
    }
    Some((rs, j - q))
}

/// The models of a sequence of templates.
pub open spec fn tpls_model(ts: Seq<Template>) -> Seq<Seq<Seg>> {
    ts.map_values(|t: Template| tpl_model(t))
}

proof fn lemma_groups_none_prefix(d: Dialect, gs: Seq<Seq<char>>, k: int, lim: nat)
    requires
        0 <= k <= gs.len(),
        parse_groups(d, gs.take(k), lim) is None,
    ensures
        parse_groups(d, gs, lim) is None,
    decreases gs.len(),
{
    if gs.len() > k {
        assert(gs.drop_last().take(k) =~= gs.take(k));
        lemma_groups_none_prefix(d, gs.drop_last(), k, lim);
    } else {
        assert(gs.take(k) =~= gs);
    }
}

/// Parses each of the given ranges in dialect `d`.
fn parse_group_list(d: Dialect, cs: &Vec<char>, rs: &Vec<(usize, usize)>, lim: usize) -> (r:
    Result<Vec<Template>, SyntaxError>)
    requires
        forall|m: int|
            0 <= m < rs@.len() ==> (#[trigger] rs@[m]).0 <= rs@[m].1 <= cs.len() && rs@[m].1
                - rs@[m].0 < lim,
    ensures
        match r {
            Ok(ts) => parse_groups(d, range_texts(cs@, rs@), lim as nat) == Some(
                tpls_model(ts@),
            ) && ts@.len() == rs@.len(),
            Err(e) => parse_groups(d, range_texts(cs@, rs@), lim as nat) is None
                && e is ResolveError,
        },
    decreases lim, 0nat,
{
    let ghost gs = range_texts(cs@, rs@);
    let mut ts: Vec<Template> = Vec::new();
    let mut k: usize = 0;
    proof {
        assert(gs.take(0) =~= Seq::<Seq<char>>::empty());
        assert(tpls_model(ts@) =~= Seq::<Seq<Seg>>::empty());
    }
    while k < rs.len()
        invariant
            k <= rs.len(),
            ts@.len() == k,
            gs == range_texts(cs@, rs@),
            forall|m: int|
                0 <= m < rs@.len() ==> (#[trigger] rs@[m]).0 <= rs@[m].1 <= cs.len() && rs@[m].1
                    - rs@[m].0 < lim,
            parse_groups(d, gs.take(k as int), lim as nat) == Some(tpls_model(ts@)),
        decreases rs.len() - k,
    {
        proof {
            assert(gs.take(k + 1).drop_last() =~= gs.take(k as int));
            assert(gs.take(k + 1).last() == cs@.subrange(rs@[k as int].0 as int, rs@[k as int].1 as int));
        }
        let (lo, hi) = rs[k];
        proof {
            assert(rs@[k as int].0 <= rs@[k as int].1 <= cs.len());
        }
        match parse_in(d, cs, lo, hi) {
            Err(e) => {
                proof {
                    lemma_groups_none_prefix(d, gs, k + 1, lim as nat);
                }
                return Err(e);
            },
            Ok(v) => {
                let ghost before = ts@;
                ts.push(Template(v));
                proof {
                    assert(tpls_model(ts@) =~= tpls_model(before).push(tpl_model(Template(v))));
                }
            },
        }
        k = k + 1;
    }
    proof {
        assert(gs.take(rs.len() as int) =~= gs);
    }
    Ok(ts)
}

/// The segment of a call with the given name, argument token and parsed groups (at
/// least one).
fn make_call(name: String, arg: String, is_for_call: bool, tpls: Vec<Template>) -> (r: Segment)
    requires
        tpls@.len() >= 1,
        is_for_call == (name@ == for_name()),
    ensures
        seg_model(r) == call_seg(name@, arg@, tpls_model(tpls@)),
{
    let ghost g = tpls_model(tpls@);
    let ghost t0 = tpls@;
    let mut rest = tpls;
    if is_for_call {
        let list = rest.remove(0);
        let body = if rest.len() > 0 {
            rest.remove(0)
        } else {
            let e = Template(Vec::new());
            proof {
                assert(tpl_model(e) =~= Seq::<Seg>::empty());
            }
            e
        };
        let sep = if rest.len() > 0 {
            Some(rest.remove(0))
        } else {
            None
        };
        proof {
            assert(tpl_model(list) == g[0]);
            if t0.len() > 1 {
                assert(tpl_model(body) == g[1]);
            }
            if t0.len() > 2 {
                assert(sep == Some(t0[2]));
            }
        }
        Segment::For { var: arg, list, body, sep }
    } else {
        let mut args: Vec<Arg> = Vec::new();
        args.push(Arg::Text(arg));
        let mut k: usize = 0;
        let n = rest.len();
        proof {
            assert(crate::tmpl::args_model(args@) == crate::tmpl::args_model(Seq::<Arg>::empty()).push(
                ArgM::Text(arg@),
            )) by {
                assert(args@.drop_last() =~= Seq::<Arg>::empty());
            }
            assert(g.take(0).map_values(|t: Seq<Seg>| ArgM::Sub(t)) =~= Seq::<ArgM>::empty());
            assert(seq![ArgM::Text(arg@)] + Seq::<ArgM>::empty() =~= seq![ArgM::Text(arg@)]);
            assert(Seq::<ArgM>::empty().push(ArgM::Text(arg@)) =~= seq![ArgM::Text(arg@)]);
        }
        while rest.len() > 0
            invariant
                k + rest@.len() == g.len(),
                g.len() == t0.len(),
                n == t0.len(),
                forall|m: int| 0 <= m < rest@.len() ==> tpl_model(#[trigger] rest@[m]) == g[k + m],
                crate::tmpl::args_model(args@) == seq![ArgM::Text(arg@)] + g.take(
                    k as int,
                ).map_values(|t: Seq<Seg>| ArgM::Sub(t)),
            decreases rest@.len(),
        {
            let ghost before = rest@;
            let ghost abefore = args@;
            let t = rest.remove(0);
            proof {
                assert(tpl_model(t) == g[k as int]);
                assert forall|m: int| 0 <= m < rest@.len() implies tpl_model(#[trigger] rest@[m])
                    == g[k + 1 + m] by {
                    assert(rest@[m] == before[m + 1]);
                }
            }
            args.push(Arg::Tpl(t));
            proof {
                assert(args@.drop_last() =~= abefore);
                assert(g.take(k + 1).map_values(|t: Seq<Seg>| ArgM::Sub(t)) =~= g.take(
                    k as int,
                ).map_values(|t: Seq<Seg>| ArgM::Sub(t)).push(ArgM::Sub(g[k as int])));
                assert(seq![ArgM::Text(arg@)] + g.take(k + 1).map_values(
                    |t: Seq<Seg>| ArgM::Sub(t),
                ) =~= (seq![ArgM::Text(arg@)] + g.take(k as int).map_values(
                    |t: Seq<Seg>| ArgM::Sub(t),
                )).push(ArgM::Sub(g[k as int])));
            }
            k = k + 1;
        }
        proof {
            assert(g.take(k as int) =~= g);
        }
        Segment::Func { name, args }
    }
}

/// A markup-style token at `i`.
fn markup_token(cs: &Vec<char>, i: usize, hi: usize) -> (r: Result<
    (Option<Segment>, usize),
    SyntaxError,
>)
    requires
        i < hi <= cs.len(),
    ensures
        tok_ok(r, markup_tok(cs@.subrange(i as int, hi as int)), hi - i),
    decreases hi - i, 1nat,
{
    let ghost s = cs@.subrange(i as int, hi as int);
    proof {
        reveal_strlit("$");
        reveal_strlit("%");
        assert("$"@ =~= seq!['$']);
        assert("%"@ =~= seq!['%']);
    }
    if cs[i] == '$' && i + 1 < hi && cs[i + 1] == '$' {
        return Ok((Some(Segment::Lit(text_of("$"))), 2));
    }
    if cs[i] == '$' && i + 1 < hi && cs[i + 1] == '{' {
        return braced_token(cs, i, hi);
    }
    if cs[i] != '%' {
        let one = string_of(&[cs[i]]);
        proof {
            assert(one@ =~= seq![s[0]]);
        }
        return Ok((Some(Segment::Lit(one)), 1));
    }
    let p = scan(cs, i + 1, hi, Stop::Name);
    proof {
        assert(s.skip(1) =~= cs@.subrange(i + 1, hi as int));
    }
    if p == i + 1 || p >= hi || cs[p] != ':' {
        return Ok((Some(Segment::Lit(text_of("%"))), 1));
    }
    let q = scan(cs, p + 1, hi, Stop::Arg);
    proof {
        assert(s.skip(p - i + 1) =~= cs@.subrange(p + 1, hi as int));
    }
    if q >= hi || cs[q] != '(' {
        return Ok((Some(Segment::Lit(text_of("%"))), 1));
    }
    proof {
        assert(s.skip(q - i) =~= cs@.subrange(q as int, hi as int));
        assert(s.subrange(1, p - i) =~= cs@.subrange(i + 1, p as int));
        assert(s.subrange(p - i + 1, q - i) =~= cs@.subrange(p + 1, q as int));
    }
    match scan_groups(cs, q, hi) {
        None => Err(SyntaxError::ResolveError(text_of("Unclosed ( in %func call"))),
        Some((rs, l)) => {
            match parse_group_list(Dialect::Markup, cs, &rs, hi - i - 1) {
                Err(e) => Err(e),
                Ok(ts) => {
                    let name = slice_string(cs, i + 1, p);
                    let arg = slice_string(cs, p + 1, q);
                    let f = is_for(cs, i + 1, p);
                    let seg = make_call(name, arg, f, ts);
                    Ok((Some(seg), q + l - i))
                },
            }
        },
    }
}

/// The index of the first `}}` at or after `lo`; at least `hi - 1` when there is none.
fn find_braces(cs: &Vec<char>, lo: usize, hi: usize) -> (r: usize)
    requires
        lo <= hi <= cs.len(),
    ensures
        lo <= r <= hi,
        r - lo == close_braces(cs@.subrange(lo as int, hi as int)),
{
    let mut j: usize = lo;
    while j < hi && j + 1 < hi && !(cs[j] == '}' && cs[j + 1] == '}')
        invariant
            lo <= j <= hi <= cs.len(),
            close_braces(cs@.subrange(lo as int, hi as int)) == (j - lo) + close_braces(
                cs@.subrange(j as int, hi as int),
            ),
        decreases hi - j,
    {
        proof {
            assert(cs@.subrange(j as int, hi as int).skip(1) =~= cs@.subrange(j + 1, hi as int));
        }
        j = j + 1;
    }
    j
}

/// `cs[lo..hi]` without leading and trailing white space, as a range.
fn trim_range(cs: &Vec<char>, lo: usize, hi: usize) -> (r: (usize, usize))
    requires
        lo <= hi <= cs.len(),
    ensures
        lo <= r.0 <= r.1 <= hi,
        cs@.subrange(r.0 as int, r.1 as int) == trim(cs@.subrange(lo as int, hi as int)),
{
    let a = scan(cs, lo, hi, Stop::Text);
    let mut b: usize = hi;
    while b > a && crate::text::space(cs[b - 1])
        invariant
            lo <= a <= b <= hi <= cs.len(),
            forall|m: int| b <= m < hi ==> is_space(#[trigger] cs@[m]),
        decreases b,
    {
        b = b - 1;
    }
    proof {
        let s = cs@.subrange(lo as int, hi as int);
        let t = s.skip(a - lo);
        assert(t =~= cs@.subrange(a as int, hi as int));
        let rv = t.reverse();
        assert forall|m: int| 0 <= m < hi - b implies !stop_text()(#[trigger] rv[m]) by {
            assert(rv[m] == cs@[hi - 1 - m]);
        }
        if b > a {
            assert(rv[hi - b] == cs@[b - 1]);
        }
        lemma_run_until(rv, stop_text(), hi - b);
        assert(t.take(t.len() - (hi - b)) =~= cs@.subrange(a as int, b as int));
    }
    (a, b)
}

/// The outcome of reading the inside of a double-brace block as a call.
enum BraceCall {
    NotCall,
    Bad(SyntaxError),
    Call(Segment),
}

/// Reads `cs[a..b]`, the trimmed inside of a double-brace block, as a call.
fn brace_call_at(cs: &Vec<char>, a: usize, b: usize, lim: usize) -> (r: BraceCall)
    requires
        a <= b <= cs.len(),
        b - a < lim,
    ensures
        match r {
            BraceCall::NotCall => brace_call(cs@.subrange(a as int, b as int), lim as nat) is None,
            BraceCall::Bad(e) => brace_call(cs@.subrange(a as int, b as int), lim as nat) == Some(
                None::<Seg>,
            ) && e is ResolveError,
            BraceCall::Call(g) => brace_call(cs@.subrange(a as int, b as int), lim as nat) == Some(
                Some(seg_model(g)),
            ),
        },
    decreases lim + 1, 0nat,
{
    let ghost inner = cs@.subrange(a as int, b as int);
    let p = scan(cs, a, b, Stop::Name);
    if p == a || p >= b || cs[p] != ':' {
        return BraceCall::NotCall;
    }
    let q = scan(cs, p + 1, b, Stop::Arg);
    proof {
        assert(inner.skip(p - a + 1) =~= cs@.subrange(p + 1, b as int));
    }
    if q >= b || cs[q] != '(' {
        return BraceCall::NotCall;
    }
    proof {
        assert(inner.skip(q - a) =~= cs@.subrange(q as int, b as int));
        assert(inner.take(p - a) =~= cs@.subrange(a as int, p as int));
        assert(inner.subrange(p - a + 1, q - a) =~= cs@.subrange(p + 1, q as int));
    }
    match scan_groups(cs, q, b) {
        None => BraceCall::NotCall,
        Some((rs, l)) => {
            if q + l != b {
                return BraceCall::NotCall;
            }
            match parse_group_list(Dialect::Shell, cs, &rs, lim) {
                Err(e) => BraceCall::Bad(e),
                Ok(ts) => {
                    let name = slice_string(cs, a, p);
                    let arg = slice_string(cs, p + 1, q);
                    let f = is_for(cs, a, p);
                    BraceCall::Call(make_call(name, arg, f, ts))
                },
            }
        },
    }
}

/// A double-brace-style token at `i`.
fn brace_token(cs: &Vec<char>, i: usize, hi: usize) -> (r: Result<
    (Option<Segment>, usize),
    SyntaxError,
>)
    requires
        i < hi <= cs.len(),
    ensures
        tok_ok(r, brace_tok(cs@.subrange(i as int, hi as int)), hi - i),
    decreases hi - i, 1nat,
{
    let ghost s = cs@.subrange(i as int, hi as int);
    if !(cs[i] == '{' && i + 1 < hi && cs[i + 1] == '{') {
        let one = string_of(&[cs[i]]);
        proof {
            assert(one@ =~= seq![s[0]]);
        }
        return Ok((Some(Segment::Lit(one)), 1));
    }
    proof {
        reveal_strlit("{{");
        reveal_strlit("}}");
        assert("{{"@ =~= seq!['{', '{']);
        assert("}}"@ =~= seq!['}', '}']);
        assert(s.skip(2) =~= cs@.subrange(i + 2, hi as int));
    }
    let e = find_braces(cs, i + 2, hi);
    if hi - e <= 1 {
        return Ok((Some(Segment::Lit(text_of("{{"))), 2));
    }
    proof {
        assert(s.skip(2).take(e - i - 2) =~= cs@.subrange(i + 2, e as int));
    }
    let (a, b) = trim_range(cs, i + 2, e);
    let n = e + 2 - i;
    if b > a && cs[a] == '!' {
        return Ok((None, n));
    }
    if is_brace_var(cs, a, b) {
        return Ok((Some(Segment::Var(slice_string(cs, a, b))), n));
    }
    match brace_call_at(cs, a, b, hi - i - 1) {
        BraceCall::Bad(err) => Err(err),
        BraceCall::Call(g) => Ok((Some(g), n)),
        BraceCall::NotCall => {
            proof {
                assert(s.take(n as int) =~= cs@.subrange(i as int, e + 2));
            }
            Ok((Some(Segment::Lit(slice_string(cs, i, e + 2))), n))
        },
    }
}

/// The first token at `i` in dialect `d`.
fn next_token(d: Dialect, cs: &Vec<char>, i: usize, hi: usize) -> (r: Result<
    (Option<Segment>, usize),
    SyntaxError,
>)
    requires
        i < hi <= cs.len(),
    ensures
        tok_ok(r, tok(d, cs@.subrange(i as int, hi as int)), hi - i),
    decreases hi - i, 2nat,
{
    match d {
        Dialect::Shell => shell_token(cs, i, hi),
        Dialect::Markup => markup_token(cs, i, hi),
        Dialect::Brace => brace_token(cs, i, hi),
    }
}

/// `segs` followed by the pending literal `lit`, if it is not empty.
pub open spec fn with_pending(segs: Seq<Seg>, lit: Seq<char>) -> Seq<Seg> {
    if lit.len() == 0 {
        segs
    } else {
        segs.push(Seg::Lit(lit))
    }
}

proof fn lemma_pending_lit(segs: Seq<Seg>, lit: Seq<char>, x: Seq<char>)
    requires
        x.len() > 0,
        segs.len() == 0 || !(segs.last() is Lit),
    ensures
        with_lit(with_pending(segs, lit), x) == with_pending(segs, lit + x),
{
    if lit.len() == 0 {
        assert(lit + x =~= x);
    } else {
        assert(segs.push(Seg::Lit(lit)).update(segs.len() as int, Seg::Lit(lit + x)) =~= segs.push(
            Seg::Lit(lit + x),
        ));
    }
}

proof fn lemma_lit_tok_nonempty(d: Dialect, s: Seq<char>)
    requires
        s.len() > 0,
    ensures
        match tok(d, s) {
            Some((Some(Seg::Lit(x)), _)) => x.len() > 0,
            _ => true,
        },
{
}

/// Moves the pending literal, if any, to the end of `segs`.
fn flush(segs: &mut Vec<Segment>, lit: &mut Vec<char>)
    ensures
        segs_model(final(segs)@) == with_pending(segs_model(old(segs)@), old(lit)@),
        final(lit)@.len() == 0,
{
    if lit.len() > 0 {
        let sl = lit.as_slice();
        let text = string_of(sl);
        let ghost before = segs@;
        let ghost tv = text@;
        segs.push(Segment::Lit(text));
        proof {
            assert(tv == old(lit)@);
            assert(segs@.drop_last() =~= before);
            assert(segs@.last() == Segment::Lit(text));
            assert(seg_model(segs@.last()) == Seg::Lit(tv));
            assert(segs_model(segs@) == segs_model(before).push(Seg::Lit(tv)));
        }
        *lit = Vec::new();
    }
}

/// Appends the characters of `x` to `lit`.
fn push_chars(lit: &mut Vec<char>, x: &String)
    ensures
        final(lit)@ == old(lit)@ + x@,
{
    let xs = chars_of(x.as_str());
    let mut k: usize = 0;
    while k < xs.len()
        invariant
            k <= xs.len(),
            xs@ == x@,
            lit@ == old(lit)@ + xs@.take(k as int),
        decreases xs.len() - k,
    {
        lit.push(xs[k]);
        proof {
            assert(old(lit)@ + xs@.take(k + 1) =~= (old(lit)@ + xs@.take(k as int)).push(xs@[k as int]));
        }
        k = k + 1;
    }
    proof {
        assert(xs@.take(xs.len() as int) =~= xs@);
    }
}

/// Parses `cs[lo..hi]` in dialect `d`.
fn parse_in(d: Dialect, cs: &Vec<char>, lo: usize, hi: usize) -> (r: Result<
    Vec<Segment>,
    SyntaxError,
>)
    requires
        lo <= hi <= cs.len(),
    ensures
        match r {
            Ok(v) => parse_spec(d, cs@.subrange(lo as int, hi as int)) == Some(segs_model(v@)),
            Err(e) => parse_spec(d, cs@.subrange(lo as int, hi as int)) is None && e is ResolveError,
        },
    decreases hi - lo, 4nat,
{
    let mut segs: Vec<Segment> = Vec::new();
    let mut lit: Vec<char> = Vec::new();
    let ghost mut emitted: Seq<Seg> = Seq::empty();
    let mut i: usize = lo;
    proof {
        assert(segs_model(segs@) =~= Seq::<Seg>::empty());
        assert(Seq::<Seg>::empty() + Seq::<Seg>::empty() =~= Seq::<Seg>::empty());
        match toks(d, cs@.subrange(lo as int, hi as int)) {
            Some(t) => {
                assert(Seq::<Seg>::empty() + t =~= t);
            },
            None => {},
        }
    }
    while i < hi
        invariant
            lo <= i <= hi <= cs.len(),
            toks(d, cs@.subrange(lo as int, hi as int)) == match toks(
                d,
                cs@.subrange(i as int, hi as int),
            ) {
                Some(t) => Some(emitted + t),
                None => None,
            },
            with_pending(segs_model(segs@), lit@) == coalesce(emitted),
            segs_model(segs@).len() == 0 || !(segs_model(segs@).last() is Lit),
        decreases hi - i,
    {
        let ghost sub = cs@.subrange(i as int, hi as int);
        let t = next_token(d, cs, i, hi);
        match t {
            Err(e) => {
                return Err(e);
            },
            Ok((g, n)) => {
                proof {
                    assert(sub.skip(n as int) =~= cs@.subrange(i + n, hi as int));
                }
                let ghost gm = opt_seg(g);
                proof {
                    match toks(d, cs@.subrange(i + n, hi as int)) {
                        Some(rest) => {
                            match gm {
                                Some(x) => {
                                    assert(emitted + (seq![x] + rest) =~= emitted.push(x) + rest);
                                },
                                None => {},
                            }
                        },
                        None => {},
                    }
                }
                match g {
                    None => {},
                    Some(Segment::Lit(x)) => {
                        let ghost old_lit = lit@;
                        push_chars(&mut lit, &x);
                        proof {
                            assert(emitted.push(Seg::Lit(x@)).drop_last() =~= emitted);
                            lemma_lit_tok_nonempty(d, sub);
                            lemma_pending_lit(segs_model(segs@), old_lit, x@);
                            emitted = emitted.push(Seg::Lit(x@));
                        }
                    },
                    Some(other) => {
                        let ghost pend = with_pending(segs_model(segs@), lit@);
                        flush(&mut segs, &mut lit);
                        let ghost before2 = segs@;
                        segs.push(other);
                        proof {
                            assert(!(seg_model(other) is Lit));
                            assert(segs@.drop_last() =~= before2);
                            assert(emitted.push(seg_model(other)).drop_last() =~= emitted);
                            emitted = emitted.push(seg_model(other));
                        }
                    },
                }
                i = i + n;
            },
        }
    }
    proof {
        assert(cs@.subrange(i as int, hi as int) =~= Seq::<char>::empty());
        assert(emitted + Seq::<Seg>::empty() =~= emitted);
    }
    flush(&mut segs, &mut lit);
    Ok(segs)
}

/// The outcome of a parse, against the grammar of dialect `d`.
pub open spec fn parsed(d: Dialect, input: Seq<char>, r: Result<Template, SyntaxError>) -> bool {
    match r {
        Ok(t) => parse_spec(d, input) == Some(tpl_model(t)),
        Err(e) => parse_spec(d, input) is None && e is ResolveError,
    }
}

/// Parses `input` in dialect `d`.
pub fn parse_text(d: Dialect, input: &str) -> (r: Result<Template, SyntaxError>)
    ensures
        parsed(d, input@, r),
{
    let cs = chars_of(input);
    proof {
        assert(cs@.subrange(0, cs@.len() as int) =~= input@);
    }
    match parse_in(d, &cs, 0, cs.len()) {
        Ok(v) => Ok(Template(v)),
        Err(e) => Err(e),
    }
}

} // verus!
