//! Laws of the template dialects and of the renderers, proved over the specifications
//! that the parsers', the evaluator's and the renderers' contracts use.
use vstd::prelude::*;
use crate::parser::{Dialect, parse_spec, toks, tok, coalesce, with_lit,
    braced_tok, run_until, stop_rbrace, has_double_brace, lemma_run_until};
use crate::text::has_char;
use crate::tmpl::{Seg, Scope, VariableResolver, FuncResolver, eval_segs, eval_seg};
use crate::easy::render_outcome;
use crate::error::SyntaxError;
use crate::cmd::CommandSpec;
use crate::render::{win_command, sh_command, sh_parts, join, sq_escape, sh_quoted, sh_program, posix_simple,
    posix_word_char, redir_parts, sh_redir};
use crate::cmd::Stdio;
use crate::tmpl::strs_view;

verus! {

/// Evaluating `a + b` evaluates `a`, then `b` from the state `a` left.
pub proof fn lemma_eval_concat<V: VariableResolver, F: FuncResolver>(
    a: Seq<Seg>,
    b: Seq<Seg>,
    vars: V,
    f: F::State,
    sc: Scope,
)
    ensures
        eval_segs::<V, F>(a + b, vars, f, sc) == match eval_segs::<V, F>(a, vars, f, sc) {
            (f1, Err(e)) => (f1, Err(e)),
            (f1, Ok(x)) => match eval_segs::<V, F>(b, vars, f1, sc) {
                (f2, Err(e)) => (f2, Err(e)),
                (f2, Ok(y)) => (f2, Ok(x + y)),
            },
        },
    decreases b.len(),
{
    if b.len() == 0 {
        assert(a + b =~= a);
        match eval_segs::<V, F>(a, vars, f, sc) {
            (f1, Ok(x)) => {
                assert(x + Seq::<char>::empty() =~= x);
            },
            _ => {},
        }
    } else {
        assert((a + b).drop_last() =~= a + b.drop_last());
        assert((a + b).last() == b.last());
        lemma_eval_concat::<V, F>(a, b.drop_last(), vars, f, sc);
        match eval_segs::<V, F>(a, vars, f, sc) {
            (f1, Ok(x)) => match eval_segs::<V, F>(b.drop_last(), vars, f1, sc) {
                (f2, Ok(y)) => match eval_seg::<V, F>(b.last(), vars, f2, sc) {
                    (f3, Ok(z)) => {
                        assert(x + y + z =~= x + (y + z));
                    },
                    _ => {},
                },
                _ => {},
            },
            _ => {},
        }
    }
}

/// Merging adjacent literals does not change what a template evaluates to.
pub proof fn lemma_eval_coalesce<V: VariableResolver, F: FuncResolver>(
    t: Seq<Seg>,
    vars: V,
    f: F::State,
    sc: Scope,
)
    ensures
        eval_segs::<V, F>(coalesce(t), vars, f, sc) == eval_segs::<V, F>(t, vars, f, sc),
    decreases t.len(),
{
    if t.len() > 0 {
        lemma_eval_coalesce::<V, F>(t.drop_last(), vars, f, sc);
        let c = coalesce(t.drop_last());
        match t.last() {
            Seg::Lit(x) => {
                assert(coalesce(t) == with_lit(c, x));
                if c.len() > 0 && c.last() is Lit {
                    let y = c.last()->Lit_0;
                    let c2 = with_lit(c, x);
                    assert(c2.drop_last() =~= c.drop_last());
                    assert(c2.last() == Seg::Lit(y + x));
                    assert(c.last() == Seg::Lit(y));
                    let pre = eval_segs::<V, F>(c.drop_last(), vars, f, sc);
                    assert(eval_seg::<V, F>(Seg::Lit(y), vars, pre.0, sc) == (pre.0, Ok::<Seq<char>, SyntaxError>(y)));
                    assert(eval_seg::<V, F>(Seg::Lit(y + x), vars, pre.0, sc) == (pre.0, Ok::<Seq<char>, SyntaxError>(y + x)));
                    assert(eval_segs::<V, F>(c, vars, f, sc) == match pre.1 {
                        Err(er) => (pre.0, Err(er)),
                        Ok(u) => (pre.0, Ok(u + y)),
                    });
                    assert(eval_segs::<V, F>(c2, vars, f, sc) == match pre.1 {
                        Err(er) => (pre.0, Err(er)),
                        Ok(u) => (pre.0, Ok(u + (y + x))),
                    });
                    let mid = eval_segs::<V, F>(t.drop_last(), vars, f, sc);
                    assert(eval_seg::<V, F>(Seg::Lit(x), vars, mid.0, sc) == (mid.0, Ok::<Seq<char>, SyntaxError>(x)));
                    assert(eval_segs::<V, F>(t, vars, f, sc) == match mid.1 {
                        Err(er) => (mid.0, Err(er)),
                        Ok(v) => (mid.0, Ok(v + x)),
                    });
                    if pre.1 is Ok {
                        let u = pre.1->Ok_0;
                        assert(u + (y + x) =~= u + y + x);
                    }
                } else {
                    assert(with_lit(c, x).drop_last() =~= c);
                    assert(with_lit(c, x).last() == Seg::Lit(x));
                }
            },
            g => {
                assert(coalesce(t) == c.push(g));
                assert(c.push(g).drop_last() =~= c);
                assert(c.push(g).last() == g);
            },
        }
    }
}

/// The one-character literal segments of `s`.
pub open spec fn char_lits(s: Seq<char>) -> Seq<Seg> {
    s.map_values(|c: char| Seg::Lit(seq![c]))
}

/// Whether `s` has no `$`, no `%` and no `{{`.
pub open spec fn plain_text(s: Seq<char>) -> bool {
    !has_char(s, '$') && !has_char(s, '%') && !has_double_brace(s)
}

proof fn lemma_plain_toks(d: Dialect, s: Seq<char>)
    requires
        plain_text(s),
    ensures
        toks(d, s) == Some(char_lits(s)),
    decreases s.len(),
{
    if s.len() > 0 {
        assert(s[0] != '$' && s[0] != '%') by {
            if s[0] == '$' {
                assert(has_char(s, '$'));
            }
            if s[0] == '%' {
                assert(has_char(s, '%'));
            }
        }
        if s.len() >= 2 && s[0] == '{' && s[1] == '{' {
            assert(has_double_brace(s));
        }
        let r = s.skip(1);
        assert(plain_text(r)) by {
            if has_char(r, '$') {
                let i = choose|i: int| 0 <= i < r.len() && r[i] == '$';
                assert(s[i + 1] == '$');
            }
            if has_char(r, '%') {
                let i = choose|i: int| 0 <= i < r.len() && r[i] == '%';
                assert(s[i + 1] == '%');
            }
            if has_double_brace(r) {
                let i = choose|i: int| 0 <= i < r.len() - 1 && #[trigger] r[i] == '{' && r[i + 1] == '{';
                assert(s[i + 1] == '{' && s[i + 2] == '{');
            }
        }
        lemma_plain_toks(d, r);
        assert(tok(d, s) == Some((Some(Seg::Lit(seq![s[0]])), 1nat)));
        assert(char_lits(s) =~= seq![Seg::Lit(seq![s[0]])] + char_lits(r));
    } else {
        assert(char_lits(s) =~= Seq::<Seg>::empty());
    }
}

proof fn lemma_coalesce_char_lits(s: Seq<char>)
    requires
        s.len() > 0,
    ensures
        coalesce(char_lits(s)) == seq![Seg::Lit(s)],
    decreases s.len(),
{
    let cl = char_lits(s);
    assert(cl.drop_last() =~= char_lits(s.drop_last()));
    assert(cl.last() == Seg::Lit(seq![s.last()]));
    assert(coalesce(cl) == with_lit(coalesce(cl.drop_last()), seq![s.last()]));
    if s.len() == 1 {
        assert(char_lits(s.drop_last()) =~= Seq::<Seg>::empty());
        assert(coalesce(Seq::<Seg>::empty()) == Seq::<Seg>::empty());
        assert(seq![s.last()] =~= s);
        assert(with_lit(Seq::<Seg>::empty(), s) =~= seq![Seg::Lit(s)]);
    } else {
        lemma_coalesce_char_lits(s.drop_last());
        assert(s.drop_last() + seq![s.last()] =~= s);
        assert(seq![Seg::Lit(s.drop_last())].update(0, Seg::Lit(s.drop_last() + seq![s.last()]))
            =~= seq![Seg::Lit(s)]);
    }
}

/// Text with no `$`, no `%` and no `{{` parses, in each dialect, to one literal segment
/// that holds the whole text (to no segment at all when the text is empty), and
/// evaluates to the text itself.
pub proof fn law_literal_passthrough<V: VariableResolver, F: FuncResolver>(
    d: Dialect,
    s: Seq<char>,
    vars: V,
    f: F::State,
)
    requires
        plain_text(s),
    ensures
        parse_spec(d, s) == Some(
            if s.len() == 0 {
                Seq::<Seg>::empty()
            } else {
                seq![Seg::Lit(s)]
            },
        ),
        render_outcome::<V, F>(d, s, vars, f) == Some((f, Ok::<Seq<char>, SyntaxError>(s))),
{
    lemma_plain_toks(d, s);
    if s.len() == 0 {
        assert(char_lits(s) =~= Seq::<Seg>::empty());
        assert(s =~= Seq::<char>::empty());
    } else {
        lemma_coalesce_char_lits(s);
        let t = seq![Seg::Lit(s)];
        assert(parse_spec(d, s) == Some(t));
        assert(t.drop_last() =~= Seq::<Seg>::empty());
        assert(eval_segs::<V, F>(t.drop_last(), vars, f, Seq::empty()) == (f, Ok::<Seq<char>, SyntaxError>(Seq::<char>::empty())));
        assert(eval_segs::<V, F>(Seq::<Seg>::empty(), vars, f, Seq::empty()) == (f, Ok::<Seq<char>, SyntaxError>(Seq::<char>::empty())));
        assert(Seq::<char>::empty() + s =~= s);
        assert(t.last() == Seg::Lit(s));
        assert(eval_seg::<V, F>(t.last(), vars, f, Seq::empty()) == (f, Ok::<Seq<char>, SyntaxError>(s)));
        assert(eval_segs::<V, F>(t, vars, f, Seq::empty()) == (f, Ok::<Seq<char>, SyntaxError>(s)));
    }
}

/// In shell-style and markup-style, text that starts with `$$` parses to a literal `$`
/// followed by what the rest parses to, and evaluates to `$` followed by what the rest
/// evaluates to, whatever the rest is.
pub proof fn law_double_dollar<V: VariableResolver, F: FuncResolver>(
    d: Dialect,
    rest: Seq<char>,
    vars: V,
    f: F::State,
)
    requires
        d == Dialect::Shell || d == Dialect::Markup,
    ensures
        tok(d, seq!['$', '$'] + rest) == Some((Some(Seg::Lit(seq!['$'])), 2nat)),
        toks(d, seq!['$', '$'] + rest) == match toks(d, rest) {
            Some(t) => Some(seq![Seg::Lit(seq!['$'])] + t),
            None => None,
        },
        render_outcome::<V, F>(d, seq!['$', '$'] + rest, vars, f) == match render_outcome::<V, F>(
            d,
            rest,
            vars,
            f,
        ) {
            Some((f1, Ok(x))) => Some((f1, Ok(seq!['$'] + x))),
            o => o,
        },
{
    let s = seq!['$', '$'] + rest;
    assert(s[0] == '$' && s[1] == '$');
    assert(s.skip(2) =~= rest);
    match toks(d, rest) {
        Some(t) => {
            let lit = seq![Seg::Lit(seq!['$'])];
            let sc: Scope = Seq::empty();
            lemma_eval_coalesce::<V, F>(lit + t, vars, f, sc);
            lemma_eval_coalesce::<V, F>(t, vars, f, sc);
            lemma_eval_concat::<V, F>(lit, t, vars, f, sc);
            assert(lit.drop_last() =~= Seq::<Seg>::empty());
            assert(eval_segs::<V, F>(Seq::<Seg>::empty(), vars, f, sc) == (f, Ok::<Seq<char>, SyntaxError>(Seq::<char>::empty())));
            assert(eval_seg::<V, F>(Seg::Lit(seq!['$']), vars, f, sc) == (f, Ok::<Seq<char>, SyntaxError>(seq!['$'])));
            assert(eval_segs::<V, F>(lit, vars, f, sc) == (f, Ok::<Seq<char>, SyntaxError>(
                Seq::<char>::empty() + seq!['$'],
            )));
            assert(Seq::<char>::empty() + seq!['$'] =~= seq!['$']);
        },
        None => {},
    }
}

proof fn lemma_plain_prefix_toks(d: Dialect, a: Seq<char>, rest: Seq<char>)
    requires
        d == Dialect::Shell || d == Dialect::Markup,
        !has_char(a, '$'),
        !has_char(a, '%'),
    ensures
        toks(d, a + rest) == match toks(d, rest) {
            Some(t) => Some(char_lits(a) + t),
            None => None,
        },
    decreases a.len(),
{
    if a.len() == 0 {
        assert(a + rest =~= rest);
        match toks(d, rest) {
            Some(t) => {
                assert(char_lits(a) + t =~= t);
            },
            None => {},
        }
    } else {
        let s = a + rest;
        assert(a[0] != '$' && a[0] != '%') by {
            if a[0] == '$' {
                assert(has_char(a, '$'));
            }
            if a[0] == '%' {
                assert(has_char(a, '%'));
            }
        }
        let a2 = a.skip(1);
        assert(!has_char(a2, '$') && !has_char(a2, '%')) by {
            if has_char(a2, '$') {
                let i = choose|i: int| 0 <= i < a2.len() && a2[i] == '$';
                assert(a[i + 1] == '$');
            }
            if has_char(a2, '%') {
                let i = choose|i: int| 0 <= i < a2.len() && a2[i] == '%';
                assert(a[i + 1] == '%');
            }
        }
        lemma_plain_prefix_toks(d, a2, rest);
        assert(s[0] == a[0]);
        assert(s.skip(1) =~= a2 + rest);
        assert(tok(d, s) == Some((Some(Seg::Lit(seq![a[0]])), 1nat)));
        match toks(d, rest) {
            Some(t) => {
                assert(char_lits(a) =~= seq![Seg::Lit(seq![a[0]])] + char_lits(a2));
                assert(seq![Seg::Lit(seq![a[0]])] + (char_lits(a2) + t) =~= char_lits(a) + t);
            },
            None => {},
        }
    }
}

proof fn lemma_eval_char_lits<V: VariableResolver, F: FuncResolver>(
    a: Seq<char>,
    vars: V,
    f: F::State,
    sc: Scope,
)
    ensures
        eval_segs::<V, F>(char_lits(a), vars, f, sc) == (f, Ok::<Seq<char>, SyntaxError>(a)),
    decreases a.len(),
{
    if a.len() == 0 {
        assert(char_lits(a) =~= Seq::<Seg>::empty());
        assert(a =~= Seq::<char>::empty());
    } else {
        lemma_eval_char_lits::<V, F>(a.drop_last(), vars, f, sc);
        assert(char_lits(a).drop_last() =~= char_lits(a.drop_last()));
        assert(char_lits(a).last() == Seg::Lit(seq![a.last()]));
        assert(eval_seg::<V, F>(Seg::Lit(seq![a.last()]), vars, f, sc) == (f, Ok::<Seq<char>, SyntaxError>(seq![a.last()])));
        assert(a.drop_last() + seq![a.last()] =~= a);
    }
}

/// In shell-style and markup-style, a `$$` between literal text (text with no `$` and no
/// `%`) and any rest evaluates to a single `$`: the whole evaluates to the text before,
/// a `$`, and what the rest evaluates to.
pub proof fn law_double_dollar_in_text<V: VariableResolver, F: FuncResolver>(
    d: Dialect,
    before: Seq<char>,
    rest: Seq<char>,
    vars: V,
    f: F::State,
)
    requires
        d == Dialect::Shell || d == Dialect::Markup,
        !has_char(before, '$'),
        !has_char(before, '%'),
    ensures
        render_outcome::<V, F>(d, before + seq!['$', '$'] + rest, vars, f) == match render_outcome::<
            V,
            F,
        >(d, rest, vars, f) {
            Some((f1, Ok(x))) => Some((f1, Ok(before + seq!['$'] + x))),
            o => o,
        },
{
    let dd = seq!['$', '$'] + rest;
    assert(before + seq!['$', '$'] + rest =~= before + dd);
    law_double_dollar::<V, F>(d, rest, vars, f);
    lemma_plain_prefix_toks(d, before, dd);
    let sc: Scope = Seq::empty();
    match toks(d, rest) {
        None => {
            assert(toks(d, before + dd) is None);
        },
        Some(t) => {
            let x1 = seq![Seg::Lit(seq!['$'])] + t;
            let all = char_lits(before) + x1;
            assert(toks(d, dd) == Some(x1));
            assert(toks(d, before + dd) == Some(all));
            lemma_eval_coalesce::<V, F>(all, vars, f, sc);
            lemma_eval_concat::<V, F>(char_lits(before), x1, vars, f, sc);
            lemma_eval_char_lits::<V, F>(before, vars, f, sc);
            lemma_eval_coalesce::<V, F>(x1, vars, f, sc);
            let e1 = eval_segs::<V, F>(x1, vars, f, sc);
            assert(render_outcome::<V, F>(d, dd, vars, f) == Some(e1));
            assert(render_outcome::<V, F>(d, before + dd, vars, f) == Some(
                match e1.1 {
                    Err(er) => (e1.0, Err(er)),
                    Ok(y) => (e1.0, Ok(before + y)),
                },
            ));
            let r0 = eval_segs::<V, F>(coalesce(t), vars, f, sc);
            assert(render_outcome::<V, F>(d, rest, vars, f) == Some(r0));
            if r0.1 is Ok {
                let x = r0.1->Ok_0;
                assert(e1 == (r0.0, Ok::<Seq<char>, SyntaxError>(seq!['$'] + x)));
                assert(before + (seq!['$'] + x) =~= before + seq!['$'] + x);
            } else {
                assert(e1 == r0);
            }
        },
    }
}

/// Whether the scan of `s` in dialect `d` starts a token at `i`.
pub open spec fn token_boundary(d: Dialect, s: Seq<char>, i: int) -> bool
    decreases s.len(),
{
    if i == 0 {
        true
    } else if i < 0 || s.len() == 0 {
        false
    } else {
        match tok(d, s) {
            Some((_, n)) => 0 < n <= i && n <= s.len() && token_boundary(d, s.skip(n as int), i - n),
            None => false,
        }
    }
}

/// In shell-style and markup-style, a `${` that the scan reaches with no `}` anywhere
/// after it makes the whole text malformed: the parse fails, it never stops early.
pub proof fn law_unclosed_brace_fails(d: Dialect, s: Seq<char>, i: int)
    requires
        d == Dialect::Shell || d == Dialect::Markup,
        token_boundary(d, s, i),
        0 <= i,
        i + 1 < s.len(),
        s[i] == '$',
        s[i + 1] == '{',
        !has_char(s.skip(i + 2), '}'),
    ensures
        parse_spec(d, s) is None,
    decreases s.len(),
{
    if i == 0 {
        let r = s.skip(2);
        assert forall|j: int| 0 <= j < r.len() implies !stop_rbrace()(#[trigger] r[j]) by {
            if r[j] == '}' {
                assert(has_char(r, '}'));
            }
        }
        lemma_run_until(r, stop_rbrace(), r.len() as int);
        assert(braced_tok(s) is None);
        assert(tok(d, s) is None);
    } else {
        let first = tok(d, s)->0;
        let n = first.1;
        let u = s.skip(n as int);
        assert(u[i - n] == s[i] && u[i - n + 1] == s[i + 1]);
        assert(u.skip(i - n + 2) =~= s.skip(i + 2));
        law_unclosed_brace_fails(d, u, i - n);
    }
}

/// Stops at the character `q`.
pub open spec fn stop_is(q: char) -> spec_fn(char) -> bool {
    |c: char| c == q
}

/// How POSIX `sh` reads one word, with no expansion taking place: the text between a
/// pair of single quotes or of double quotes is taken as it stands, without the
/// quotes; any other character stands for itself.
pub open spec fn sh_read(w: Seq<char>) -> Seq<char>
    decreases w.len(),
{
    if w.len() == 0 {
        Seq::empty()
    } else if w[0] == '\'' || w[0] == '"' {
        let k: int = run_until(w.skip(1), stop_is(w[0])) as int;
        if k + 1 < w.len() {
            w.subrange(1, k + 1) + sh_read(w.skip(k + 2))
        } else {
            w.skip(1)
        }
    } else {
        seq![w[0]] + sh_read(w.skip(1))
    }
}

/// The length of the word that `w` starts with: up to the first space outside quotes.
pub open spec fn word_end(w: Seq<char>) -> nat
    decreases w.len(),
{
    if w.len() == 0 || w[0] == ' ' {
        0
    } else if w[0] == '\'' || w[0] == '"' {
        let k: int = run_until(w.skip(1), stop_is(w[0])) as int;
        if k + 1 < w.len() {
            (k + 2 + word_end(w.skip(k + 2))) as nat
        } else {
            w.len()
        }
    } else {
        1 + word_end(w.skip(1))
    }
}

/// The words that POSIX `sh` reads from a line: spaces outside quotes separate them.
pub open spec fn sh_words(line: Seq<char>) -> Seq<Seq<char>>
    decreases line.len(),
{
    if line.len() == 0 {
        Seq::empty()
    } else if line[0] == ' ' {
        sh_words(line.skip(1))
    } else {
        let n = word_end(line);
        if 0 < n <= line.len() {
            seq![sh_read(line.take(n as int))] + sh_words(line.skip(n as int))
        } else {
            Seq::empty()
        }
    }
}

/// Text that may follow a word: nothing, or a space.
pub open spec fn word_follow(rest: Seq<char>) -> bool {
    rest.len() == 0 || rest[0] == ' '
}

proof fn lemma_escape_concat(a: Seq<char>, b: Seq<char>)
    ensures
        sq_escape(a + b) == sq_escape(a) + sq_escape(b),
    decreases b.len(),
{
    if b.len() == 0 {
        assert(a + b =~= a);
        assert(sq_escape(a) + sq_escape(b) =~= sq_escape(a));
    } else {
        assert((a + b).drop_last() =~= a + b.drop_last());
        lemma_escape_concat(a, b.drop_last());
        let t = if b.last() == '\'' {
            seq!['\'', '"', '\'', '"', '\'']
        } else {
            seq![b.last()]
        };
        assert(sq_escape(a) + sq_escape(b.drop_last()) + t =~= sq_escape(a) + (sq_escape(
            b.drop_last(),
        ) + t));
    }
}

proof fn lemma_escape_plain(p: Seq<char>)
    requires
        forall|i: int| 0 <= i < p.len() ==> p[i] != '\'',
    ensures
        sq_escape(p) == p,
    decreases p.len(),
{
    if p.len() > 0 {
        lemma_escape_plain(p.drop_last());
        assert(p.drop_last() + seq![p.last()] =~= p);
    }
}

/// A single-quoted word, followed by a space or by nothing, is read back as its text.
#[verifier::rlimit(60)]
proof fn lemma_read_quoted(s: Seq<char>, rest: Seq<char>)
    requires
        word_follow(rest),
    ensures
        word_end(sh_quoted(s) + rest) == sh_quoted(s).len(),
        sh_read(sh_quoted(s)) == s,
    decreases s.len(),
{
    let q = sh_quoted(s);
    let w = q + rest;
    let k: int = run_until(s, stop_is('\'')) as int;
    crate::parser::lemma_run_until_facts(s, stop_is('\''));
    let p = s.take(k);
    assert forall|i: int| 0 <= i < p.len() implies p[i] != '\'' by {
        assert(!stop_is('\'')(s[i]));
    }
    lemma_escape_plain(p);
    assert(word_end(rest) == 0);
    if k == s.len() {
        assert(p =~= s);
        assert(q =~= seq!['\''] + s + seq!['\'']);
        assert forall|j: int| 0 <= j < k implies !stop_is('\'')(#[trigger] w.skip(1)[j]) by {
            assert(w.skip(1)[j] == s[j]);
        }
        assert(w.skip(1)[k] == '\'');
        lemma_run_until(w.skip(1), stop_is('\''), k);
        assert forall|j: int| 0 <= j < k implies !stop_is('\'')(#[trigger] q.skip(1)[j]) by {
            assert(q.skip(1)[j] == s[j]);
        }
        assert(q.skip(1)[k] == '\'');
        lemma_run_until(q.skip(1), stop_is('\''), k);
        assert(w.skip(k + 2) =~= rest);
        assert(q.skip(k + 2) =~= Seq::<char>::empty());
        assert(sh_read(Seq::<char>::empty()) == Seq::<char>::empty());
        assert(q.subrange(1, k + 1) =~= s);
        assert(s + Seq::<char>::empty() =~= s);
        assert(word_end(w) == k + 2 + word_end(w.skip(k + 2)));
        assert(sh_read(q) == q.subrange(1, k + 1) + sh_read(q.skip(k + 2)));
    } else {
        let s2 = s.skip(k + 1);
        assert(s =~= p + seq!['\''] + s2);
        lemma_escape_concat(p + seq!['\''], s2);
        lemma_escape_concat(p, seq!['\'']);
        assert(sq_escape(Seq::<char>::empty()) == Seq::<char>::empty());
        assert(seq!['\''].drop_last() =~= Seq::<char>::empty());
        assert(sq_escape(seq!['\'']) =~= seq!['\'', '"', '\'', '"', '\'']);
        let q2 = sh_quoted(s2);
        let mid = seq!['"', '\'', '"'];
        assert(q =~= seq!['\''] + p + seq!['\''] + mid + q2);
        lemma_read_quoted(s2, rest);
        let w2 = w.skip(k + 2);
        let v2 = q.skip(k + 2);
        assert(w2 =~= mid + q2 + rest);
        assert(v2 =~= mid + q2);
        // the double-quoted single quote
        assert(!stop_is('"')(w2.skip(1)[0]));
        assert(w2.skip(1)[1] == '"');
        lemma_run_until(w2.skip(1), stop_is('"'), 1);
        assert(!stop_is('"')(v2.skip(1)[0]));
        assert(v2.skip(1)[1] == '"');
        lemma_run_until(v2.skip(1), stop_is('"'), 1);
        assert(w2.skip(3) =~= q2 + rest);
        assert(v2.skip(3) =~= q2);
        assert(v2.subrange(1, 2) =~= seq!['\'']);
        assert(word_end(w2) == 3 + word_end(w2.skip(3)));
        assert(sh_read(v2) == v2.subrange(1, 2) + sh_read(v2.skip(3)));
        // the single-quoted run before it
        assert forall|j: int| 0 <= j < k implies !stop_is('\'')(#[trigger] w.skip(1)[j]) by {
            assert(w.skip(1)[j] == p[j]);
        }
        assert(w.skip(1)[k] == '\'');
        lemma_run_until(w.skip(1), stop_is('\''), k);
        assert forall|j: int| 0 <= j < k implies !stop_is('\'')(#[trigger] q.skip(1)[j]) by {
            assert(q.skip(1)[j] == p[j]);
        }
        assert(q.skip(1)[k] == '\'');
        lemma_run_until(q.skip(1), stop_is('\''), k);
        assert(q.subrange(1, k + 1) =~= p);
        assert(word_end(w) == k + 2 + word_end(w2));
        assert(sh_read(q) == q.subrange(1, k + 1) + sh_read(v2));
        assert(p + (seq!['\''] + s2) =~= s);
    }
}

/// A character that `sh` takes as it stands inside a word: not a space, not a quote.
pub open spec fn bare_char(c: char) -> bool {
    c != ' ' && c != '\'' && c != '"'
}

/// Whether every character of `p` is a bare character.
pub open spec fn bare_word(p: Seq<char>) -> bool {
    forall|i: int| 0 <= i < p.len() ==> bare_char(#[trigger] p[i])
}

/// A word of bare characters, followed by a space or by nothing, is read back as itself.
proof fn lemma_read_bare(p: Seq<char>, rest: Seq<char>)
    requires
        bare_word(p),
        word_follow(rest),
    ensures
        word_end(p + rest) == p.len(),
        sh_read(p) == p,
    decreases p.len(),
{
    if p.len() > 0 {
        assert(bare_char(p[0]));
        assert(bare_word(p.skip(1))) by {
            assert forall|i: int| 0 <= i < p.skip(1).len() implies bare_char(
                #[trigger] p.skip(1)[i],
            ) by {
                assert(p.skip(1)[i] == p[i + 1]);
            }
        }
        lemma_read_bare(p.skip(1), rest);
        assert((p + rest).skip(1) =~= p.skip(1) + rest);
        assert(seq![p[0]] + p.skip(1) =~= p);
    } else {
        assert(p + rest =~= rest);
        assert(word_end(rest) == 0);
    }
}

proof fn lemma_bare_reads(p: Seq<char>)
    requires
        p.len() > 0,
        bare_word(p),
    ensures
        reads_as(p, p),
{
    assert forall|rest: Seq<char>| word_follow(rest) implies #[trigger] word_end(p + rest) == p.len() by {
        lemma_read_bare(p, rest);
    }
    lemma_read_bare(p, Seq::empty());
    assert(bare_char(p[0]));
}

/// A word that `sh` reads back as `text`.
pub open spec fn reads_as(w: Seq<char>, text: Seq<char>) -> bool {
    &&& w.len() > 0
    &&& w[0] != ' '
    &&& sh_read(w) == text
    &&& forall|rest: Seq<char>| word_follow(rest) ==> #[trigger] word_end(w + rest) == w.len()
}

/// Bare characters in front of a word are read as they stand, in front of its text.
proof fn lemma_bare_prefix(p: Seq<char>, w: Seq<char>, t: Seq<char>)
    requires
        bare_word(p),
        reads_as(w, t),
    ensures
        reads_as(p + w, p + t),
    decreases p.len(),
{
    if p.len() == 0 {
        assert(p + w =~= w);
        assert(p + t =~= t);
    } else {
        let p_tail = p.skip(1);
        assert(bare_word(p_tail)) by {
            assert forall|i: int| 0 <= i < p_tail.len() implies bare_char(#[trigger] p_tail[i]) by {
                assert(p_tail[i] == p[i + 1]);
            }
        }
        lemma_bare_prefix(p_tail, w, t);
        assert(bare_char(p[0]));
        let x = p + w;
        assert(x[0] == p[0]);
        assert(x.skip(1) =~= p_tail + w);
        assert(sh_read(x) == seq![p[0]] + sh_read(x.skip(1)));
        assert(seq![p[0]] + (p_tail + t) =~= p + t);
        assert forall|rest: Seq<char>| word_follow(rest) implies #[trigger] word_end(x + rest)
            == x.len() by {
            assert((x + rest).skip(1) =~= p_tail + w + rest);
            assert(word_end(p_tail + w + rest) == (p_tail + w).len());
            assert((x + rest)[0] == p[0]);
        }
    }
}

proof fn lemma_quoted_reads(s: Seq<char>)
    ensures
        reads_as(sh_quoted(s), s),
{
    assert forall|rest: Seq<char>| word_follow(rest) implies #[trigger] word_end(sh_quoted(s) + rest)
        == sh_quoted(s).len() by {
        lemma_read_quoted(s, rest);
    }
    lemma_read_quoted(s, Seq::empty());
}

proof fn lemma_program_reads(p: Seq<char>)
    requires
        p.len() > 0,
    ensures
        reads_as(sh_program(p), p),
{
    if posix_simple(p) {
        assert forall|i: int| 0 <= i < p.len() implies bare_char(#[trigger] p[i]) by {
            assert(posix_word_char(p[i]));
        }
        lemma_bare_reads(p);
    } else {
        lemma_quoted_reads(p);
    }
}

/// Text that `sh` reads as the words `ts`, whatever follows it after a space.
pub open spec fn words_as(x: Seq<char>, ts: Seq<Seq<char>>) -> bool {
    forall|rest: Seq<char>| word_follow(rest) ==> #[trigger] sh_words(x + rest) == ts + sh_words(rest)
}

proof fn lemma_words_space(z: Seq<char>)
    ensures
        sh_words(seq![' '] + z) == sh_words(z),
{
    assert((seq![' '] + z).skip(1) =~= z);
}

proof fn lemma_word_words(w: Seq<char>, t: Seq<char>)
    requires
        reads_as(w, t),
    ensures
        words_as(w, seq![t]),
{
    assert forall|rest: Seq<char>| word_follow(rest) implies #[trigger] sh_words(w + rest) == seq![t]
        + sh_words(rest) by {
        let line = w + rest;
        assert(word_end(w + rest) == w.len());
        assert(line[0] == w[0]);
        assert(line.take(w.len() as int) =~= w);
        assert(line.skip(w.len() as int) =~= rest);
    }
}

proof fn lemma_words_cat(x: Seq<char>, ts: Seq<Seq<char>>, y: Seq<char>, us: Seq<Seq<char>>)
    requires
        words_as(x, ts),
        words_as(y, us),
    ensures
        words_as(x + seq![' '] + y, ts + us),
{
    assert forall|rest: Seq<char>| word_follow(rest) implies #[trigger] sh_words(
        x + seq![' '] + y + rest,
    ) == ts + us + sh_words(rest) by {
        let r1 = seq![' '] + (y + rest);
        assert(x + seq![' '] + y + rest =~= x + r1);
        assert(word_follow(r1));
        assert(sh_words(x + r1) == ts + sh_words(r1));
        lemma_words_space(y + rest);
        assert(sh_words(y + rest) == us + sh_words(rest));
        assert(ts + (us + sh_words(rest)) =~= ts + us + sh_words(rest));
    }
}

proof fn lemma_words_whole(x: Seq<char>, ts: Seq<Seq<char>>)
    requires
        words_as(x, ts),
    ensures
        sh_words(x) == ts,
{
    assert(word_follow(Seq::<char>::empty()));
    assert(x + Seq::<char>::empty() =~= x);
    assert(sh_words(x + Seq::<char>::empty()) == ts + sh_words(Seq::<char>::empty()));
    assert(sh_words(Seq::<char>::empty()) == Seq::<Seq<char>>::empty());
    assert(ts + Seq::<Seq<char>>::empty() =~= ts);
}

/// Parts joined by spaces are read as the words of each part, in order.
proof fn lemma_words_join(parts: Seq<Seq<char>>, tss: Seq<Seq<Seq<char>>>)
    requires
        parts.len() == tss.len(),
        parts.len() > 0,
        forall|i: int| 0 <= i < parts.len() ==> words_as(#[trigger] parts[i], tss[i]),
    ensures
        words_as(join(parts, seq![' ']), tss.flatten_alt()),
    decreases parts.len(),
{
    assert(words_as(parts[parts.len() - 1], tss[tss.len() - 1]));
    if parts.len() == 1 {
        assert(tss.drop_last() =~= Seq::<Seq<Seq<char>>>::empty());
        assert(tss.flatten_alt() == Seq::<Seq<Seq<char>>>::empty().flatten_alt() + tss.last());
        assert(Seq::<Seq<char>>::empty() + tss.last() =~= tss.last());
        assert(words_as(parts[0], tss[0]));
    } else {
        assert forall|i: int| 0 <= i < parts.drop_last().len() implies words_as(
            #[trigger] parts.drop_last()[i],
            tss.drop_last()[i],
        ) by {
            assert(words_as(parts[i], tss[i]));
        }
        lemma_words_join(parts.drop_last(), tss.drop_last());
        lemma_words_cat(
            join(parts.drop_last(), seq![' ']),
            tss.drop_last().flatten_alt(),
            parts.last(),
            tss.last(),
        );
    }
}

/// The words of the environment assignments: `KEY=value` for each entry, in order.
pub open spec fn env_words(c: CommandSpec) -> Seq<Seq<char>> {
    c.env@.map_values(|kv: (Seq<char>, Seq<char>)| kv.0 + seq!['='] + kv.1)
}

/// Whether no environment key holds a space or a quote.
pub open spec fn bare_keys(c: CommandSpec) -> bool {
    forall|i: int| 0 <= i < c.env@.len() ==> bare_word(#[trigger] c.env@[i].0)
}

/// The words `cd DIR &&` that a working directory adds in front.
pub open spec fn cwd_words(c: CommandSpec) -> Seq<Seq<char>> {
    match c.cwd {
        Some(d) => seq!["cd"@, d@, "&&"@],
        None => Seq::empty(),
    }
}

/// The words of the redirection of stream `fd`: the operator, then the path.
pub open spec fn redir_words(fd: u8, io: Stdio) -> Seq<Seq<char>> {
    match io {
        Stdio::Null => if fd == 0 {
            seq!["<"@, "/dev/null"@]
        } else if fd == 1 {
            seq![">"@, "/dev/null"@]
        } else if fd == 2 {
            seq!["2>"@, "/dev/null"@]
        } else {
            Seq::empty()
        },
        Stdio::File { path, append } => if fd == 0 {
            seq!["<"@, path@]
        } else if fd == 1 {
            seq![if append { ">>"@ } else { ">"@ }, path@]
        } else if fd == 2 {
            seq![if append { "2>>"@ } else { "2>"@ }, path@]
        } else {
            Seq::empty()
        },
        _ => Seq::empty(),
    }
}

proof fn lemma_literal_words()
    ensures
        reads_as("cd"@, "cd"@),
        reads_as("&&"@, "&&"@),
        reads_as("<"@, "<"@),
        reads_as(">"@, ">"@),
        reads_as(">>"@, ">>"@),
        reads_as("2>"@, "2>"@),
        reads_as("2>>"@, "2>>"@),
        reads_as("/dev/null"@, "/dev/null"@),
        "cd "@ == "cd"@ + seq![' '],
        " && "@ == seq![' '] + "&&"@ + seq![' '],
        "< "@ == "<"@ + seq![' '],
        "> "@ == ">"@ + seq![' '],
        ">> "@ == ">>"@ + seq![' '],
        "2> "@ == "2>"@ + seq![' '],
        "2>> "@ == "2>>"@ + seq![' '],
        "< /dev/null"@ == "<"@ + seq![' '] + "/dev/null"@,
        "> /dev/null"@ == ">"@ + seq![' '] + "/dev/null"@,
        "2> /dev/null"@ == "2>"@ + seq![' '] + "/dev/null"@,
{
    reveal_strlit("cd");
    reveal_strlit("&&");
    reveal_strlit("<");
    reveal_strlit(">");
    reveal_strlit(">>");
    reveal_strlit("2>");
    reveal_strlit("2>>");
    reveal_strlit("/dev/null");
    reveal_strlit("cd ");
    reveal_strlit(" && ");
    reveal_strlit("< ");
    reveal_strlit("> ");
    reveal_strlit(">> ");
    reveal_strlit("2> ");
    reveal_strlit("2>> ");
    reveal_strlit("< /dev/null");
    reveal_strlit("> /dev/null");
    reveal_strlit("2> /dev/null");
    lemma_bare_reads("cd"@);
    lemma_bare_reads("&&"@);
    lemma_bare_reads("<"@);
    lemma_bare_reads(">"@);
    lemma_bare_reads(">>"@);
    lemma_bare_reads("2>"@);
    lemma_bare_reads("2>>"@);
    lemma_bare_reads("/dev/null"@);
    assert("cd "@ =~= "cd"@ + seq![' ']);
    assert(" && "@ =~= seq![' '] + "&&"@ + seq![' ']);
    assert("< "@ =~= "<"@ + seq![' ']);
    assert("> "@ =~= ">"@ + seq![' ']);
    assert(">> "@ =~= ">>"@ + seq![' ']);
    assert("2> "@ =~= "2>"@ + seq![' ']);
    assert("2>> "@ =~= "2>>"@ + seq![' ']);
    assert("< /dev/null"@ =~= "<"@ + seq![' '] + "/dev/null"@);
    assert("> /dev/null"@ =~= ">"@ + seq![' '] + "/dev/null"@);
    assert("2> /dev/null"@ =~= "2>"@ + seq![' '] + "/dev/null"@);
}

proof fn lemma_redir_words(fd: u8, io: Stdio)
    requires
        sh_redir(fd, io) is Some,
    ensures
        words_as(sh_redir(fd, io)->0, redir_words(fd, io)),
{
    lemma_literal_words();
    let x = sh_redir(fd, io)->0;
    match io {
        Stdio::Null => {
            let op = if fd == 0 {
                "<"@
            } else if fd == 1 {
                ">"@
            } else {
                "2>"@
            };
            lemma_word_words(op, op);
            lemma_word_words("/dev/null"@, "/dev/null"@);
            lemma_words_cat(op, seq![op], "/dev/null"@, seq!["/dev/null"@]);
            assert(seq![op] + seq!["/dev/null"@] =~= redir_words(fd, io));
        },
        Stdio::File { path, append } => {
            let op = if fd == 0 {
                "<"@
            } else if fd == 1 {
                if append {
                    ">>"@
                } else {
                    ">"@
                }
            } else {
                if append {
                    "2>>"@
                } else {
                    "2>"@
                }
            };
            lemma_word_words(op, op);
            lemma_quoted_reads(path@);
            lemma_word_words(sh_quoted(path@), path@);
            lemma_words_cat(op, seq![op], sh_quoted(path@), seq![path@]);
            assert(x == op + seq![' '] + sh_quoted(path@));
            assert(seq![op] + seq![path@] =~= redir_words(fd, io));
        },
        _ => {},
    }
}

/// The parts of the redirections, with the words each is read as.
proof fn lemma_redirs_words(c: CommandSpec)
    ensures
        forall|i: int|
            0 <= i < redir_parts(c, false).len() ==> words_as(
                #[trigger] redir_parts(c, false)[i],
                redir_word_lists(c)[i],
            ),
        redir_parts(c, false).len() == redir_word_lists(c).len(),
        redir_word_lists(c).flatten_alt() == redir_words(0, c.stdin) + redir_words(1, c.stdout)
            + redir_words(2, c.stderr),
{
    if sh_redir(0, c.stdin) is Some {
        lemma_redir_words(0, c.stdin);
    }
    if sh_redir(1, c.stdout) is Some {
        lemma_redir_words(1, c.stdout);
    }
    if sh_redir(2, c.stderr) is Some {
        lemma_redir_words(2, c.stderr);
    }
    let l0 = opt_words(sh_redir(0, c.stdin), redir_words(0, c.stdin));
    let l1 = opt_words(sh_redir(1, c.stdout), redir_words(1, c.stdout));
    let l2 = opt_words(sh_redir(2, c.stderr), redir_words(2, c.stderr));
    assert(sh_redir(0, c.stdin) is None ==> redir_words(0, c.stdin) == Seq::<Seq<char>>::empty());
    assert(sh_redir(1, c.stdout) is None ==> redir_words(1, c.stdout) == Seq::<Seq<char>>::empty());
    assert(sh_redir(2, c.stderr) is None ==> redir_words(2, c.stderr) == Seq::<Seq<char>>::empty());
    lemma_flatten_alt_concat(l0 + l1, l2);
    lemma_flatten_alt_concat(l0, l1);
    lemma_flatten_alt_opt(sh_redir(0, c.stdin), redir_words(0, c.stdin));
    lemma_flatten_alt_opt(sh_redir(1, c.stdout), redir_words(1, c.stdout));
    lemma_flatten_alt_opt(sh_redir(2, c.stderr), redir_words(2, c.stderr));
}

/// The word lists of the redirections that are present.
pub open spec fn redir_word_lists(c: CommandSpec) -> Seq<Seq<Seq<char>>> {
    opt_words(sh_redir(0, c.stdin), redir_words(0, c.stdin)) + opt_words(
        sh_redir(1, c.stdout),
        redir_words(1, c.stdout),
    ) + opt_words(sh_redir(2, c.stderr), redir_words(2, c.stderr))
}

/// `[ws]` when `o` is present, else nothing.
pub open spec fn opt_words(o: Option<Seq<char>>, ws: Seq<Seq<char>>) -> Seq<Seq<Seq<char>>> {
    match o {
        Some(_) => seq![ws],
        None => Seq::empty(),
    }
}

proof fn lemma_flatten_alt_opt(o: Option<Seq<char>>, ws: Seq<Seq<char>>)
    requires
        o is None ==> ws == Seq::<Seq<char>>::empty(),
    ensures
        opt_words(o, ws).flatten_alt() == ws,
{
    assert(Seq::<Seq<Seq<char>>>::empty().flatten_alt() == Seq::<Seq<char>>::empty());
    if o is Some {
        assert(seq![ws].drop_last() =~= Seq::<Seq<Seq<char>>>::empty());
        assert(seq![ws].last() == ws);
        assert(Seq::<Seq<char>>::empty() + ws =~= ws);
    }
}

proof fn lemma_flatten_alt_concat(a: Seq<Seq<Seq<char>>>, b: Seq<Seq<Seq<char>>>)
    ensures
        (a + b).flatten_alt() == a.flatten_alt() + b.flatten_alt(),
    decreases b.len(),
{
    if b.len() == 0 {
        assert(a + b =~= a);
        assert(a.flatten_alt() + Seq::<Seq<char>>::empty() =~= a.flatten_alt());
    } else {
        assert((a + b).drop_last() =~= a + b.drop_last());
        lemma_flatten_alt_concat(a, b.drop_last());
        assert(a.flatten_alt() + b.drop_last().flatten_alt() + b.last() =~= a.flatten_alt() + (
        b.drop_last().flatten_alt() + b.last()));
    }
}

proof fn lemma_flatten_alt_singles(v: Seq<Seq<char>>)
    ensures
        v.map_values(|t: Seq<char>| seq![t]).flatten_alt() == v,
    decreases v.len(),
{
    if v.len() > 0 {
        assert(v.map_values(|t: Seq<char>| seq![t]).drop_last() =~= v.drop_last().map_values(
            |t: Seq<char>| seq![t],
        ));
        lemma_flatten_alt_singles(v.drop_last());
        assert(v.drop_last() + seq![v.last()] =~= v);
    } else {
        assert(v.map_values(|t: Seq<char>| seq![t]) =~= Seq::<Seq<Seq<char>>>::empty());
        assert(v =~= Seq::<Seq<char>>::empty());
    }
}

/// The words of a rendered command without environment entries, before its working
/// directory: the program, each argument, the redirections.
#[verifier::rlimit(80)]
proof fn lemma_line_words(c: CommandSpec)
    requires
        c.program@.len() > 0,
        bare_keys(c),
    ensures
        words_as(
            join(sh_parts(c), seq![' ']),
            env_words(c) + seq![c.program@] + strs_view(c.args@) + redir_words(0, c.stdin)
                + redir_words(1, c.stdout) + redir_words(2, c.stderr),
        ),
{
    let args = strs_view(c.args@);
    let envs = c.env@.map_values(|kv: (Seq<char>, Seq<char>)| kv.0 + seq!['='] + sh_quoted(kv.1));
    let qargs = args.map_values(|a: Seq<char>| sh_quoted(a));
    let reds = redir_parts(c, false);
    let parts = envs + seq![sh_program(c.program@)] + qargs + reds;
    assert(sh_parts(c) =~= parts);
    let ew = env_words(c);
    let env_lists = ew.map_values(|t: Seq<char>| seq![t]);
    let arg_lists = args.map_values(|t: Seq<char>| seq![t]);
    let rls = redir_word_lists(c);
    let tss = env_lists + seq![seq![c.program@]] + arg_lists + rls;
    let ne = envs.len();
    lemma_program_reads(c.program@);
    lemma_redirs_words(c);
    assert forall|i: int| 0 <= i < parts.len() implies words_as(#[trigger] parts[i], tss[i]) by {
        if i < ne {
            let kv = c.env@[i];
            assert(bare_word(kv.0));
            let key_eq = kv.0 + seq!['='];
            assert(bare_word(key_eq)) by {
                assert forall|j: int| 0 <= j < key_eq.len() implies bare_char(#[trigger] key_eq[j]) by {
                    if j < kv.0.len() {
                        assert(key_eq[j] == kv.0[j]);
                    }
                }
            }
            lemma_quoted_reads(kv.1);
            lemma_bare_prefix(key_eq, sh_quoted(kv.1), kv.1);
            assert(parts[i] == key_eq + sh_quoted(kv.1));
            assert(tss[i] == seq![key_eq + kv.1]);
            lemma_word_words(key_eq + sh_quoted(kv.1), key_eq + kv.1);
        } else if i == ne {
            lemma_word_words(sh_program(c.program@), c.program@);
        } else if i <= ne + args.len() {
            lemma_quoted_reads(args[i - 1 - ne]);
            lemma_word_words(sh_quoted(args[i - 1 - ne]), args[i - 1 - ne]);
        } else {
            assert(parts[i] == reds[i - 1 - ne - args.len()]);
            assert(tss[i] == rls[i - 1 - ne - args.len()]);
        }
    }
    lemma_words_join(parts, tss);
    lemma_flatten_alt_concat(env_lists + seq![seq![c.program@]] + arg_lists, rls);
    lemma_flatten_alt_concat(env_lists + seq![seq![c.program@]], arg_lists);
    lemma_flatten_alt_concat(env_lists, seq![seq![c.program@]]);
    lemma_flatten_alt_singles(ew);
    lemma_flatten_alt_singles(args);
    lemma_flatten_alt_singles(seq![c.program@]);
    assert(seq![c.program@].map_values(|t: Seq<char>| seq![t]) =~= seq![seq![c.program@]]);
    let words = ew + seq![c.program@] + args + redir_words(0, c.stdin) + redir_words(1, c.stdout)
        + redir_words(2, c.stderr);
    assert(tss.flatten_alt() =~= words);
}

/// `cd DIR && ` in front of a line adds the words `cd`, DIR and `&&`.
proof fn lemma_cwd_words(d: Seq<char>, line: Seq<char>, words: Seq<Seq<char>>)
    requires
        words_as(line, words),
    ensures
        words_as("cd "@ + sh_quoted(d) + " && "@ + line, seq!["cd"@, d, "&&"@] + words),
{
    lemma_literal_words();
    lemma_quoted_reads(d);
    lemma_word_words("cd"@, "cd"@);
    lemma_word_words(sh_quoted(d), d);
    lemma_word_words("&&"@, "&&"@);
    lemma_words_cat("cd"@, seq!["cd"@], sh_quoted(d), seq![d]);
    assert(seq!["cd"@] + seq![d] =~= seq!["cd"@, d]);
    lemma_words_cat("cd"@ + seq![' '] + sh_quoted(d), seq!["cd"@, d], "&&"@, seq!["&&"@]);
    assert(seq!["cd"@, d] + seq!["&&"@] =~= seq!["cd"@, d, "&&"@]);
    let head = "cd"@ + seq![' '] + sh_quoted(d) + seq![' '] + "&&"@;
    lemma_words_cat(head, seq!["cd"@, d, "&&"@], line, words);
    assert("cd "@ + sh_quoted(d) + " && "@ + line =~= head + seq![' '] + line);
}

/// Quoting for POSIX `sh` loses nothing: the rendered line reads back, word by word, as
/// `cd DIR &&` when there is a working directory, then `KEY=value` for each environment
/// entry, the program, each argument, and each redirection's operator and path,
/// whatever characters the directory, values, program, arguments and paths hold.
/// Environment keys are written as they stand, so this holds when they have no space
/// and no quote. (With a non-empty program the rendering always succeeds.)
pub proof fn law_posix_words_round_trip(c: CommandSpec)
    requires
        c.program@.len() > 0,
        bare_keys(c),
    ensures
        sh_command(c) is Some,
        sh_words(sh_command(c)->0) == cwd_words(c) + env_words(c) + seq![c.program@] + strs_view(
            c.args@,
        ) + redir_words(0, c.stdin) + redir_words(1, c.stdout) + redir_words(2, c.stderr),
{
    let line = join(sh_parts(c), seq![' ']);
    let words = env_words(c) + seq![c.program@] + strs_view(c.args@) + redir_words(0, c.stdin)
        + redir_words(1, c.stdout) + redir_words(2, c.stderr);
    lemma_line_words(c);
    match c.cwd {
        None => {
            lemma_words_whole(line, words);
            assert(cwd_words(c) + words =~= words);
        },
        Some(d) => {
            lemma_cwd_words(d@, line, words);
            lemma_words_whole("cd "@ + sh_quoted(d@) + " && "@ + line, seq!["cd"@, d@, "&&"@] + words);
        },
    }
    assert(cwd_words(c) + env_words(c) + seq![c.program@] + strs_view(c.args@) + redir_words(
        0,
        c.stdin,
    ) + redir_words(1, c.stdout) + redir_words(2, c.stderr) =~= cwd_words(c) + words);
}

/// Rendering a command, for either shell, succeeds exactly when its program is not
/// empty.
pub proof fn law_render_total(c: CommandSpec)
    ensures
        sh_command(c) is Some <==> c.program@.len() > 0,
        win_command(c) is Some <==> c.program@.len() > 0,
{
}

} // verus!
