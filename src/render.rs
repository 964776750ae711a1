//! Rendering commands and pipelines as shell text: POSIX `sh` and Windows `cmd.exe`.
//! The two renderers are deliberately separate: the shells' unsafe characters and
//! escaping idioms have nothing in common.
use vstd::prelude::*;
use crate::cmd::{CommandSpec, CmdFlags, PipelineSpec, Stdio, pairs_view};
use crate::error::SyntaxError;
use crate::text::{chars_of, string_of, text_of, is_alnum};

verus! {

/// How a renderer quotes words.
#[derive(Debug, Clone, Copy, PartialEq, Eq)]
pub enum QuotePolicy {
    Strict,
    Loose,
}

/// `parts` joined by `sep`.
pub open spec fn join(parts: Seq<Seq<char>>, sep: Seq<char>) -> Seq<char>
    decreases parts.len(),
{
    if parts.len() == 0 {
        Seq::empty()
    } else if parts.len() == 1 {
        parts[0]
    } else {
        join(parts.drop_last(), sep) + sep + parts.last()
    }
}

/// The strings of `parts` joined by `sep`.
pub fn join_strings(parts: &Vec<String>, sep: &str) -> (r: String)
    ensures
        r@ == join(crate::tmpl::strs_view(parts@), sep@),
{
    let ghost ps = crate::tmpl::strs_view(parts@);
    let mut out = String::new();
    let mut i: usize = 0;
    while i < parts.len()
        invariant
            i <= parts.len(),
            ps == crate::tmpl::strs_view(parts@),
            out@ == join(ps.take(i as int), sep@),
        decreases parts.len() - i,
    {
        proof {
            assert(ps.take(i + 1).drop_last() =~= ps.take(i as int));
            if i == 0 {
                assert(ps.take(0) =~= Seq::<Seq<char>>::empty());
            }
        }
        if i > 0 {
            out.append(sep);
        }
        out.append(parts[i].as_str());
        i = i + 1;
    }
    proof {
        assert(ps.take(parts.len() as int) =~= ps);
    }
    out
}

// ---- POSIX ----

/// `s` with each single quote written as `'"'"'`.
pub open spec fn sq_escape(s: Seq<char>) -> Seq<char>
    decreases s.len(),
{
    if s.len() == 0 {
        Seq::empty()
    } else {
        sq_escape(s.drop_last()) + if s.last() == '\'' {
            seq!['\'', '"', '\'', '"', '\'']
        } else {
            seq![s.last()]
        }
    }
}

/// The POSIX quoting of `s`: single quotes around it, each inner single quote closed,
/// given in double quotes, and reopened.
pub open spec fn sh_quoted(s: Seq<char>) -> Seq<char> {
    seq!['\''] + sq_escape(s) + seq!['\'']
}

/// A character that POSIX `sh` reads literally outside quotes.
pub open spec fn posix_word_char(c: char) -> bool {
    is_alnum(c) || c == '_' || c == '-' || c == '.' || c == '/' || c == ':' || c == '+' || c
        == '%' || c == '@' || c == '=' || c == ','
}

/// Whether every character of `s` is read literally by POSIX `sh`.
pub open spec fn posix_simple(s: Seq<char>) -> bool {
    forall|i: int| 0 <= i < s.len() ==> posix_word_char(#[trigger] s[i])
}

/// A program name as POSIX text: bare when simple, else quoted.
pub open spec fn sh_program(p: Seq<char>) -> Seq<char> {
    if posix_simple(p) {
        p
    } else {
        sh_quoted(p)
    }
}

/// Quotes `s` for POSIX `sh`.
pub fn quote_sh(s: &str) -> (r: String)
    ensures
        r@ == sh_quoted(s@),
{
    let cs = chars_of(s);
    let mut out: Vec<char> = Vec::new();
    out.push('\'');
    let mut i: usize = 0;
    proof {
        assert(cs@.take(0) =~= Seq::<char>::empty());
        assert(out@ =~= seq!['\''] + sq_escape(cs@.take(0)));
    }
    while i < cs.len()
        invariant
            i <= cs.len(),
            out@ == seq!['\''] + sq_escape(cs@.take(i as int)),
        decreases cs.len() - i,
    {
        proof {
            assert(cs@.take(i + 1).drop_last() =~= cs@.take(i as int));
        }
        let ghost before = out@;
        if cs[i] == '\'' {
            out.push('\'');
            out.push('"');
            out.push('\'');
            out.push('"');
            out.push('\'');
            proof {
                assert(out@ =~= before + seq!['\'', '"', '\'', '"', '\'']);
            }
        } else {
            out.push(cs[i]);
            proof {
                assert(out@ =~= before + seq![cs@[i as int]]);
            }
        }
        i = i + 1;
    }
    out.push('\'');
    proof {
        assert(cs@.take(cs.len() as int) =~= cs@);
    }
    string_of(out.as_slice())
}

/// Whether every character of `s` is read literally by POSIX `sh`.
pub fn is_simple_word(s: &str) -> (r: bool)
    ensures
        r == posix_simple(s@),
{
    let cs = chars_of(s);
    let mut i: usize = 0;
    while i < cs.len()
        invariant
            i <= cs.len(),
            cs@ == s@,
            forall|j: int| 0 <= j < i ==> posix_word_char(#[trigger] cs@[j]),
        decreases cs.len() - i,
    {
        let c = cs[i];
        if !(('a' <= c && c <= 'z') || ('A' <= c && c <= 'Z') || ('0' <= c && c <= '9') || c
            == '_' || c == '-' || c == '.' || c == '/' || c == ':' || c == '+' || c == '%' || c
            == '@' || c == '=' || c == ',') {
            proof {
                assert(!posix_word_char(s@[i as int]));
            }
            return false;
        }
        i = i + 1;
    }
    true
}

/// A program name for POSIX `sh`: bare when simple, else quoted.
pub fn quote_prog(p: &str) -> (r: String)
    ensures
        r@ == sh_program(p@),
{
    if is_simple_word(p) {
        String::from_str(p)
    } else {
        quote_sh(p)
    }
}

/// The POSIX redirection of stream `fd` (0, 1 or 2), if it needs one.
pub open spec fn sh_redir(fd: u8, io: Stdio) -> Option<Seq<char>> {
    match io {
        Stdio::Null => if fd == 0 {
            Some("< /dev/null"@)
        } else if fd == 1 {
            Some("> /dev/null"@)
        } else if fd == 2 {
            Some("2> /dev/null"@)
        } else {
            None
        },
        Stdio::File { path, append } => if fd == 0 {
            Some("< "@ + sh_quoted(path@))
        } else if fd == 1 {
            Some((if append { ">> "@ } else { "> "@ }) + sh_quoted(path@))
        } else if fd == 2 {
            Some((if append { "2>> "@ } else { "2> "@ }) + sh_quoted(path@))
        } else {
            None
        },
        _ => None,
    }
}

/// The POSIX redirection of stream `fd` (0, 1 or 2), if it needs one.
pub fn render_redir(fd: u8, io: &Stdio) -> (r: Option<String>)
    ensures
        crate::tmpl::opt_view(r) == sh_redir(fd, *io),
{
    match io {
        Stdio::Null => if fd == 0 {
            Some(text_of("< /dev/null"))
        } else if fd == 1 {
            Some(text_of("> /dev/null"))
        } else if fd == 2 {
            Some(text_of("2> /dev/null"))
        } else {
            None
        },
        Stdio::File { path, append } => if fd == 0 {
            Some(text_of("< ").concat(quote_sh(path.as_str()).as_str()))
        } else if fd == 1 {
            let op = if *append {
                text_of(">> ")
            } else {
                text_of("> ")
            };
            Some(op.concat(quote_sh(path.as_str()).as_str()))
        } else if fd == 2 {
            let op = if *append {
                text_of("2>> ")
            } else {
                text_of("2> ")
            };
            Some(op.concat(quote_sh(path.as_str()).as_str()))
        } else {
            None
        },
        _ => None,
    }
}

/// The one-element list of `o`'s text, or the empty list.
pub open spec fn opt_part(o: Option<Seq<char>>) -> Seq<Seq<char>> {
    match o {
        Some(x) => seq![x],
        None => Seq::empty(),
    }
}

/// The redirections of a command, in the order stdin, stdout, stderr.
pub open spec fn redir_parts(c: CommandSpec, win: bool) -> Seq<Seq<char>> {
    if win {
        opt_part(win_redir(0, c.stdin)) + opt_part(win_redir(1, c.stdout)) + opt_part(
            win_redir(2, c.stderr),
        )
    } else {
        opt_part(sh_redir(0, c.stdin)) + opt_part(sh_redir(1, c.stdout)) + opt_part(
            sh_redir(2, c.stderr),
        )
    }
}

/// The POSIX words of a command before its working directory: `KEY='value'` for each
/// environment entry in key order, the program, each argument quoted, the redirections.
pub open spec fn sh_parts(c: CommandSpec) -> Seq<Seq<char>> {
    c.env@.map_values(|kv: (Seq<char>, Seq<char>)| kv.0 + seq!['='] + sh_quoted(kv.1)) + seq![
        sh_program(c.program@),
    ] + crate::tmpl::strs_view(c.args@).map_values(|a: Seq<char>| sh_quoted(a)) + redir_parts(
        c,
        false,
    )
}

/// The POSIX rendering of a command; `None` when the program is empty.
pub open spec fn sh_command(c: CommandSpec) -> Option<Seq<char>> {
    if c.program@.len() == 0 {
        None
    } else {
        let line = join(sh_parts(c), seq![' ']);
        Some(
            match c.cwd {
                Some(d) => "cd "@ + sh_quoted(d@) + " && "@ + line,
                None => line,
            },
        )
    }
}

/// `r` is the rendering `o`, or the render error when there is none.
pub open spec fn rendered(r: Result<String, SyntaxError>, o: Option<Seq<char>>) -> bool {
    match r {
        Ok(s) => o == Some(s@),
        Err(e) => o is None && e is RenderError,
    }
}

fn program_empty() -> (r: SyntaxError)
    ensures
        r is RenderError,
{
    SyntaxError::RenderError(text_of("program empty"))
}

proof fn lemma_strs_concat(a: Seq<String>, b: Seq<String>)
    ensures
        crate::tmpl::strs_view(a + b) == crate::tmpl::strs_view(a) + crate::tmpl::strs_view(b),
{
    assert(crate::tmpl::strs_view(a + b) =~= crate::tmpl::strs_view(a) + crate::tmpl::strs_view(b));
}

/// Appends the redirection of stream `fd`, if any.
fn push_opt(parts: &mut Vec<String>, o: Option<String>)
    ensures
        crate::tmpl::strs_view(final(parts)@) == crate::tmpl::strs_view(old(parts)@) + opt_part(
            crate::tmpl::opt_view(o),
        ),
{
    match o {
        Some(x) => {
            let ghost xv = x@;
            parts.push(x);
            proof {
                assert(crate::tmpl::strs_view(parts@) =~= crate::tmpl::strs_view(old(parts)@)
                    + seq![xv]);
            }
        },
        None => {
            proof {
                assert(crate::tmpl::strs_view(parts@) =~= crate::tmpl::strs_view(old(parts)@)
                    + Seq::<Seq<char>>::empty());
            }
        },
    }
}

/// Renders a command for POSIX `sh`.
fn sh_render(cmd: &CommandSpec) -> (r: Result<String, SyntaxError>)
    ensures
        rendered(r, sh_command(*cmd)),
{
    if cmd.program.as_str().is_empty() {
        return Err(program_empty());
    }
    let mut parts: Vec<String> = Vec::new();
    let env = cmd.env.entries();
    let ghost ev = cmd.env@;
    let mut i: usize = 0;
    proof {
        assert(crate::tmpl::strs_view(parts@) =~= ev.take(0).map_values(
            |kv: (Seq<char>, Seq<char>)| kv.0 + seq!['='] + sh_quoted(kv.1),
        ));
    }
    while i < env.len()
        invariant
            i <= env.len(),
            pairs_view(env@) == ev,
            crate::tmpl::strs_view(parts@) == ev.take(i as int).map_values(
                |kv: (Seq<char>, Seq<char>)| kv.0 + seq!['='] + sh_quoted(kv.1),
            ),
        decreases env.len() - i,
    {
        let w = env[i].0.clone().concat("=").concat(quote_sh(env[i].1.as_str()).as_str());
        proof {
            reveal_strlit("=");
            assert("="@ =~= seq!['=']);
        }
        let ghost before = parts@;
        parts.push(w);
        proof {
            assert(crate::tmpl::strs_view(parts@) =~= crate::tmpl::strs_view(before).push(w@));
            assert(ev.take(i + 1).map_values(
                |kv: (Seq<char>, Seq<char>)| kv.0 + seq!['='] + sh_quoted(kv.1),
            ) =~= ev.take(i as int).map_values(
                |kv: (Seq<char>, Seq<char>)| kv.0 + seq!['='] + sh_quoted(kv.1),
            ).push(w@));
        }
        i = i + 1;
    }
    proof {
        assert(ev.take(env.len() as int) =~= ev);
    }
    let ghost pre_prog = crate::tmpl::strs_view(parts@);
    parts.push(quote_prog(cmd.program.as_str()));
    let ghost with_prog = crate::tmpl::strs_view(parts@);
    proof {
        assert(with_prog =~= pre_prog + seq![sh_program(cmd.program@)]);
    }
    let ghost av = crate::tmpl::strs_view(cmd.args@);
    let mut j: usize = 0;
    while j < cmd.args.len()
        invariant
            j <= cmd.args.len(),
            av == crate::tmpl::strs_view(cmd.args@),
            crate::tmpl::strs_view(parts@) == with_prog + av.take(j as int).map_values(
                |a: Seq<char>| sh_quoted(a),
            ),
        decreases cmd.args.len() - j,
    {
        let w = quote_sh(cmd.args[j].as_str());
        let ghost before = parts@;
        parts.push(w);
        proof {
            assert(crate::tmpl::strs_view(parts@) =~= crate::tmpl::strs_view(before).push(w@));
            assert(av.take(j + 1).map_values(|a: Seq<char>| sh_quoted(a)) =~= av.take(
                j as int,
            ).map_values(|a: Seq<char>| sh_quoted(a)).push(w@));
            assert(with_prog + av.take(j + 1).map_values(|a: Seq<char>| sh_quoted(a)) =~= (with_prog + av.take(
                j as int,
            ).map_values(|a: Seq<char>| sh_quoted(a))).push(w@));
        }
        j = j + 1;
    }
    proof {
        assert(av.take(cmd.args.len() as int) =~= av);
    }
    push_opt(&mut parts, render_redir(0, &cmd.stdin));
    push_opt(&mut parts, render_redir(1, &cmd.stdout));
    push_opt(&mut parts, render_redir(2, &cmd.stderr));
    proof {
        assert(crate::tmpl::strs_view(parts@) =~= sh_parts(*cmd));
        reveal_strlit(" ");
        assert(" "@ =~= seq![' ']);
    }
    let line = join_strings(&parts, " ");
    match &cmd.cwd {
        Some(d) => Ok(text_of("cd ").concat(quote_sh(d.as_str()).as_str()).concat(" && ").concat(
            line.as_str(),
        )),
        None => Ok(line),
    }
}

// ---- Windows ----

/// A character that `cmd.exe` reads literally outside quotes.
pub open spec fn win_word_char(c: char) -> bool {
    is_alnum(c) || c == '_' || c == '-' || c == '.' || c == '/' || c == '\\' || c == ':' || c
        == '+' || c == '%' || c == '@' || c == '=' || c == ','
}

/// Whether `s` is non-empty and read literally by `cmd.exe`.
pub open spec fn win_simple(s: Seq<char>) -> bool {
    s.len() > 0 && forall|i: int| 0 <= i < s.len() ==> win_word_char(#[trigger] s[i])
}

/// `s` with each double quote doubled.
pub open spec fn dq_escape(s: Seq<char>) -> Seq<char>
    decreases s.len(),
{
    if s.len() == 0 {
        Seq::empty()
    } else {
        dq_escape(s.drop_last()) + if s.last() == '"' {
            seq!['"', '"']
        } else {
            seq![s.last()]
        }
    }
}

/// The `cmd.exe` form of a word: bare when simple, else in double quotes with inner
/// double quotes doubled.
pub open spec fn win_quoted(s: Seq<char>) -> Seq<char> {
    if win_simple(s) {
        s
    } else {
        seq!['"'] + dq_escape(s) + seq!['"']
    }
}

/// Whether `s` is non-empty and read literally by `cmd.exe`.
pub fn is_simple_word_win(s: &str) -> (r: bool)
    ensures
        r == win_simple(s@),
{
    let cs = chars_of(s);
    if cs.len() == 0 {
        return false;
    }
    let mut i: usize = 0;
    while i < cs.len()
        invariant
            i <= cs.len(),
            cs@ == s@,
            forall|j: int| 0 <= j < i ==> win_word_char(#[trigger] cs@[j]),
        decreases cs.len() - i,
    {
        let c = cs[i];
        if !(('a' <= c && c <= 'z') || ('A' <= c && c <= 'Z') || ('0' <= c && c <= '9') || c
            == '_' || c == '-' || c == '.' || c == '/' || c == '\\' || c == ':' || c == '+' || c
            == '%' || c == '@' || c == '=' || c == ',') {
            proof {
                assert(!win_word_char(s@[i as int]));
            }
            return false;
        }
        i = i + 1;
    }
    true
}

/// `s` with each double quote doubled.
fn escape_dq(s: &str) -> (r: Vec<char>)
    ensures
        r@ == dq_escape(s@),
{
    let cs = chars_of(s);
    let mut out: Vec<char> = Vec::new();
    let mut i: usize = 0;
    proof {
        assert(cs@.take(0) =~= Seq::<char>::empty());
    }
    while i < cs.len()
        invariant
            i <= cs.len(),
            out@ == dq_escape(cs@.take(i as int)),
        decreases cs.len() - i,
    {
        proof {
            assert(cs@.take(i + 1).drop_last() =~= cs@.take(i as int));
        }
        let ghost before = out@;
        if cs[i] == '"' {
            out.push('"');
            out.push('"');
            proof {
                assert(out@ =~= before + seq!['"', '"']);
            }
        } else {
            out.push(cs[i]);
            proof {
                assert(out@ =~= before + seq![cs@[i as int]]);
            }
        }
        i = i + 1;
    }
    proof {
        assert(cs@.take(cs.len() as int) =~= cs@);
    }
    out
}

/// Quotes `s` for `cmd.exe` unless it is simple.
pub fn quote_win(s: &str) -> (r: String)
    ensures
        r@ == win_quoted(s@),
{
    if is_simple_word_win(s) {
        return String::from_str(s);
    }
    let mut out: Vec<char> = Vec::new();
    out.push('"');
    let e = escape_dq(s);
    let mut i: usize = 0;
    while i < e.len()
        invariant
            i <= e.len(),
            out@ == seq!['"'] + e@.take(i as int),
        decreases e.len() - i,
    {
        out.push(e[i]);
        proof {
            assert(seq!['"'] + e@.take(i + 1) =~= (seq!['"'] + e@.take(i as int)).push(e@[i as int]));
        }
        i = i + 1;
    }
    out.push('"');
    proof {
        assert(e@.take(e.len() as int) =~= e@);
    }
    string_of(out.as_slice())
}

/// A program name for `cmd.exe`: bare when simple, else quoted.
pub fn quote_prog_win(p: &str) -> (r: String)
    ensures
        r@ == win_quoted(p@),
{
    if is_simple_word_win(p) {
        String::from_str(p)
    } else {
        quote_win(p)
    }
}

/// The `cmd.exe` redirection of stream `fd` (0, 1 or 2), if it needs one.
pub open spec fn win_redir(fd: u8, io: Stdio) -> Option<Seq<char>> {
    match io {
        Stdio::Null => if fd == 0 {
            Some("< NUL"@)
        } else if fd == 1 {
            Some("> NUL"@)
        } else if fd == 2 {
            Some("2> NUL"@)
        } else {
            None
        },
        Stdio::File { path, append } => if fd == 0 {
            Some("< "@ + win_quoted(path@))
        } else if fd == 1 {
            Some((if append { ">> "@ } else { "> "@ }) + win_quoted(path@))
        } else if fd == 2 {
            Some((if append { "2>> "@ } else { "2> "@ }) + win_quoted(path@))
        } else {
            None
        },
        _ => None,
    }
}

/// The `cmd.exe` redirection of stream `fd` (0, 1 or 2), if it needs one.
pub fn render_redir_win(fd: u8, io: &Stdio) -> (r: Option<String>)
    ensures
        crate::tmpl::opt_view(r) == win_redir(fd, *io),
{
    match io {
        Stdio::Null => if fd == 0 {
            Some(text_of("< NUL"))
        } else if fd == 1 {
            Some(text_of("> NUL"))
        } else if fd == 2 {
            Some(text_of("2> NUL"))
        } else {
            None
        },
        Stdio::File { path, append } => if fd == 0 {
            Some(text_of("< ").concat(quote_win(path.as_str()).as_str()))
        } else if fd == 1 {
            let op = if *append {
                text_of(">> ")
            } else {
                text_of("> ")
            };
            Some(op.concat(quote_win(path.as_str()).as_str()))
        } else if fd == 2 {
            let op = if *append {
                text_of("2>> ")
            } else {
                text_of("2> ")
            };
            Some(op.concat(quote_win(path.as_str()).as_str()))
        } else {
            None
        },
        _ => None,
    }
}

/// The `cmd.exe` words of a command: `cd /d DIR &&`, `set "KEY=value" &&` for each
/// environment entry in key order, the program, the arguments, the redirections.
pub open spec fn win_parts(c: CommandSpec) -> Seq<Seq<char>> {
    (match c.cwd {
        Some(d) => seq!["cd /d "@ + win_quoted(d@) + " &&"@],
        None => Seq::empty(),
    }) + c.env@.map_values(
        |kv: (Seq<char>, Seq<char>)| "set \""@ + kv.0 + seq!['='] + dq_escape(kv.1) + "\" &&"@,
    ) + seq![win_quoted(c.program@)] + crate::tmpl::strs_view(c.args@).map_values(
        |a: Seq<char>| win_quoted(a),
    ) + redir_parts(c, true)
}

/// The `cmd.exe` rendering of a command; `None` when the program is empty.
pub open spec fn win_command(c: CommandSpec) -> Option<Seq<char>> {
    if c.program@.len() == 0 {
        None
    } else {
        Some(join(win_parts(c), seq![' ']))
    }
}

/// Renders a command for `cmd.exe`.
fn win_render(cmd: &CommandSpec) -> (r: Result<String, SyntaxError>)
    ensures
        rendered(r, win_command(*cmd)),
{
    if cmd.program.as_str().is_empty() {
        return Err(program_empty());
    }
    let mut parts: Vec<String> = Vec::new();
    match &cmd.cwd {
        Some(d) => {
            parts.push(text_of("cd /d ").concat(quote_win(d.as_str()).as_str()).concat(" &&"));
        },
        None => {},
    }
    let ghost cwd_parts = crate::tmpl::strs_view(parts@);
    proof {
        assert(cwd_parts =~= match cmd.cwd {
            Some(d) => seq!["cd /d "@ + win_quoted(d@) + " &&"@],
            None => Seq::empty(),
        });
    }
    let env = cmd.env.entries();
    let ghost ev = cmd.env@;
    let mut i: usize = 0;
    proof {
        reveal_strlit("=");
        assert("="@ =~= seq!['=']);
        assert(crate::tmpl::strs_view(parts@) =~= cwd_parts + ev.take(0).map_values(
            |kv: (Seq<char>, Seq<char>)| "set \""@ + kv.0 + seq!['='] + dq_escape(kv.1) + "\" &&"@,
        ));
    }
    while i < env.len()
        invariant
            i <= env.len(),
            pairs_view(env@) == ev,
            "="@ == seq!['='],
            crate::tmpl::strs_view(parts@) == cwd_parts + ev.take(i as int).map_values(
                |kv: (Seq<char>, Seq<char>)| "set \""@ + kv.0 + seq!['='] + dq_escape(kv.1) + "\" &&"@,
            ),
        decreases env.len() - i,
    {
        let v = string_of(escape_dq(env[i].1.as_str()).as_slice());
        let w = text_of("set \"").concat(env[i].0.as_str()).concat("=").concat(v.as_str()).concat(
            "\" &&",
        );
        let ghost before = parts@;
        parts.push(w);
        proof {
            assert(crate::tmpl::strs_view(parts@) =~= crate::tmpl::strs_view(before).push(w@));
            assert(ev.take(i + 1).map_values(
                |kv: (Seq<char>, Seq<char>)| "set \""@ + kv.0 + seq!['='] + dq_escape(kv.1) + "\" &&"@,
            ) =~= ev.take(i as int).map_values(
                |kv: (Seq<char>, Seq<char>)| "set \""@ + kv.0 + seq!['='] + dq_escape(kv.1) + "\" &&"@,
            ).push(w@));
            assert(cwd_parts + ev.take(i + 1).map_values(
                |kv: (Seq<char>, Seq<char>)| "set \""@ + kv.0 + seq!['='] + dq_escape(kv.1) + "\" &&"@,
            ) =~= (cwd_parts + ev.take(i as int).map_values(
                |kv: (Seq<char>, Seq<char>)| "set \""@ + kv.0 + seq!['='] + dq_escape(kv.1) + "\" &&"@,
            )).push(w@));
        }
        i = i + 1;
    }
    proof {
        assert(ev.take(env.len() as int) =~= ev);
    }
    let ghost pre_prog = crate::tmpl::strs_view(parts@);
    parts.push(quote_prog_win(cmd.program.as_str()));
    let ghost with_prog = crate::tmpl::strs_view(parts@);
    proof {
        assert(with_prog =~= pre_prog + seq![win_quoted(cmd.program@)]);
    }
    let ghost av = crate::tmpl::strs_view(cmd.args@);
    let mut j: usize = 0;
    while j < cmd.args.len()
        invariant
            j <= cmd.args.len(),
            av == crate::tmpl::strs_view(cmd.args@),
            crate::tmpl::strs_view(parts@) == with_prog + av.take(j as int).map_values(
                |a: Seq<char>| win_quoted(a),
            ),
        decreases cmd.args.len() - j,
    {
        let w = quote_win(cmd.args[j].as_str());
        let ghost before = parts@;
        parts.push(w);
        proof {
            assert(crate::tmpl::strs_view(parts@) =~= crate::tmpl::strs_view(before).push(w@));
            assert(av.take(j + 1).map_values(|a: Seq<char>| win_quoted(a)) =~= av.take(
                j as int,
            ).map_values(|a: Seq<char>| win_quoted(a)).push(w@));
            assert(with_prog + av.take(j + 1).map_values(|a: Seq<char>| win_quoted(a)) =~= (with_prog + av.take(
                j as int,
            ).map_values(|a: Seq<char>| win_quoted(a))).push(w@));
        }
        j = j + 1;
    }
    proof {
        assert(av.take(cmd.args.len() as int) =~= av);
    }
    push_opt(&mut parts, render_redir_win(0, &cmd.stdin));
    push_opt(&mut parts, render_redir_win(1, &cmd.stdout));
    push_opt(&mut parts, render_redir_win(2, &cmd.stderr));
    proof {
        assert(crate::tmpl::strs_view(parts@) =~= win_parts(*cmd));
        reveal_strlit(" ");
        assert(" "@ =~= seq![' ']);
    }
    Ok(join_strings(&parts, " "))
}

// ---- plans and pipelines ----

/// The decimal digit of `d` (below ten).
pub open spec fn digit(d: nat) -> char {
    if d == 0 {
        '0'
    } else if d == 1 {
        '1'
    } else if d == 2 {
        '2'
    } else if d == 3 {
        '3'
    } else if d == 4 {
        '4'
    } else if d == 5 {
        '5'
    } else if d == 6 {
        '6'
    } else if d == 7 {
        '7'
    } else if d == 8 {
        '8'
    } else {
        '9'
    }
}

/// The decimal numeral of `n`, without leading zeros.
pub open spec fn decimal(n: nat) -> Seq<char>
    decreases n,
{
    if n < 10 {
        seq![digit(n)]
    } else {
        decimal(n / 10).push(digit(n % 10))
    }
}

fn digit_char(d: u64) -> (r: char)
    requires
        d < 10,
    ensures
        r == digit(d as nat),
{
    if d == 0 {
        '0'
    } else if d == 1 {
        '1'
    } else if d == 2 {
        '2'
    } else if d == 3 {
        '3'
    } else if d == 4 {
        '4'
    } else if d == 5 {
        '5'
    } else if d == 6 {
        '6'
    } else if d == 7 {
        '7'
    } else if d == 8 {
        '8'
    } else {
        '9'
    }
}

fn decimal_chars(n: u64) -> (r: Vec<char>)
    ensures
        r@ == decimal(n as nat),
    decreases n,
{
    if n < 10 {
        let mut v: Vec<char> = Vec::new();
        v.push(digit_char(n));
        proof {
            assert(v@ =~= seq![digit(n as nat)]);
        }
        v
    } else {
        let mut v = decimal_chars(n / 10);
        v.push(digit_char(n % 10));
        v
    }
}

/// The annotations of a plan: the timeout and the retry count, when set.
pub open spec fn plan_notes(f: CmdFlags) -> Seq<Seq<char>> {
    (match f.timeout_ms {
        Some(ms) => seq!["timeout="@ + decimal(ms as nat) + "ms"@],
        None => Seq::empty(),
    }) + if f.retries > 0 {
        seq!["retries="@ + decimal(f.retries as nat)]
    } else {
        Seq::empty()
    }
}

/// A rendered command with its annotations as a trailing comment.
pub open spec fn with_notes(line: Seq<char>, f: CmdFlags) -> Seq<char> {
    if plan_notes(f).len() == 0 {
        line
    } else {
        line + "  # "@ + join(plan_notes(f), ", "@)
    }
}

fn annotate(line: String, f: &CmdFlags) -> (r: String)
    ensures
        r@ == with_notes(line@, *f),
{
    let mut notes: Vec<String> = Vec::new();
    match f.timeout_ms {
        Some(ms) => {
            let d = string_of(decimal_chars(ms).as_slice());
            notes.push(text_of("timeout=").concat(d.as_str()).concat("ms"));
        },
        None => {},
    }
    let ghost n0 = crate::tmpl::strs_view(notes@);
    if f.retries > 0 {
        let d = string_of(decimal_chars(f.retries as u64).as_slice());
        notes.push(text_of("retries=").concat(d.as_str()));
    }
    proof {
        assert(crate::tmpl::strs_view(notes@) =~= plan_notes(*f));
    }
    if notes.len() == 0 {
        line
    } else {
        line.concat("  # ").concat(join_strings(&notes, ", ").as_str())
    }
}

/// The rendering of one command: POSIX or Windows, plain or annotated.
pub open spec fn command_text(win: bool, c: CommandSpec, plan: bool) -> Option<Seq<char>> {
    match (if win { win_command(c) } else { sh_command(c) }) {
        Some(x) => Some(if plan { with_notes(x, c.flags) } else { x }),
        None => None,
    }
}

/// The renderings of each command, or `None` when one of them has no rendering.
pub open spec fn command_texts(win: bool, cs: Seq<CommandSpec>, plan: bool) -> Option<
    Seq<Seq<char>>,
>
    decreases cs.len(),
{
    if cs.len() == 0 {
        Some(Seq::empty())
    } else {
        match (command_texts(win, cs.drop_last(), plan), command_text(win, cs.last(), plan)) {
            (Some(t), Some(x)) => Some(t.push(x)),
            _ => None,
        }
    }
}

/// The rendering of a pipeline: the commands joined by ` | `; a plan ends with ` &`
/// when the last command runs in the background.
pub open spec fn pipeline_text(win: bool, p: PipelineSpec, plan: bool) -> Option<Seq<char>> {
    match command_texts(win, p.0@, plan) {
        Some(t) => Some(
            join(t, " | "@) + if plan && p.0@.len() > 0 && p.0@.last().flags.background {
                " &"@
            } else {
                Seq::empty()
            },
        ),
        None => None,
    }
}

fn render_one(win: bool, cmd: &CommandSpec, plan: bool) -> (r: Result<String, SyntaxError>)
    ensures
        rendered(r, command_text(win, *cmd, plan)),
{
    let line = if win {
        win_render(cmd)
    } else {
        sh_render(cmd)
    };
    match line {
        Err(e) => Err(e),
        Ok(x) => if plan {
            Ok(annotate(x, &cmd.flags))
        } else {
            Ok(x)
        },
    }
}

proof fn lemma_texts_none_prefix(win: bool, cs: Seq<CommandSpec>, k: int, plan: bool)
    requires
        0 <= k <= cs.len(),
        command_texts(win, cs.take(k), plan) is None,
    ensures
        command_texts(win, cs, plan) is None,
    decreases cs.len(),
{
    if cs.len() > k {
        assert(cs.drop_last().take(k) =~= cs.take(k));
        lemma_texts_none_prefix(win, cs.drop_last(), k, plan);
    } else {
        assert(cs.take(k) =~= cs);
    }
}

fn render_pipeline(win: bool, pipe: &PipelineSpec, plan: bool) -> (r: Result<String, SyntaxError>)
    ensures
        rendered(r, pipeline_text(win, *pipe, plan)),
{
    let ghost cs = pipe.0@;
    let mut parts: Vec<String> = Vec::new();
    let mut i: usize = 0;
    proof {
        assert(cs.take(0) =~= Seq::<CommandSpec>::empty());
        assert(crate::tmpl::strs_view(parts@) =~= Seq::<Seq<char>>::empty());
    }
    while i < pipe.0.len()
        invariant
            i <= pipe.0.len(),
            cs == pipe.0@,
            command_texts(win, cs.take(i as int), plan) == Some(crate::tmpl::strs_view(parts@)),
        decreases pipe.0.len() - i,
    {
        proof {
            assert(cs.take(i + 1).drop_last() =~= cs.take(i as int));
        }
        match render_one(win, &pipe.0[i], plan) {
            Err(e) => {
                proof {
                    lemma_texts_none_prefix(win, cs, i + 1, plan);
                }
                return Err(e);
            },
            Ok(x) => {
                let ghost before = parts@;
                parts.push(x);
                proof {
                    assert(crate::tmpl::strs_view(parts@) =~= crate::tmpl::strs_view(before).push(
                        x@,
                    ));
                }
            },
        }
        i = i + 1;
    }
    proof {
        assert(cs.take(pipe.0.len() as int) =~= cs);
    }
    let s = join_strings(&parts, " | ");
    if plan && pipe.0.len() > 0 && pipe.0[pipe.0.len() - 1].flags.background {
        Ok(s.concat(" &"))
    } else {
        proof {
            assert(s@ + Seq::<char>::empty() =~= s@);
        }
        Ok(s)
    }
}

/// A renderer of commands and pipelines for one target shell.
pub trait Renderer {
    /// Whether the target is `cmd.exe` rather than POSIX `sh` (unspecified unless the
    /// implementation defines it).
    closed spec fn targets_windows(&self) -> bool {
        arbitrary()
    }

    /// Renders one command.
    fn render_cmd(&self, cmd: &CommandSpec) -> (r: Result<String, SyntaxError>)
        ensures
            rendered(r, command_text(self.targets_windows(), *cmd, false)),
    ;

    /// Renders a pipeline: the commands joined by ` | `.
    fn render_pipe(&self, pipe: &PipelineSpec) -> (r: Result<String, SyntaxError>)
        ensures
            rendered(r, pipeline_text(self.targets_windows(), *pipe, false)),
    ;

    /// Renders one command with its execution hints as a trailing comment.
    fn render_cmd_plan(&self, cmd: &CommandSpec) -> (r: Result<String, SyntaxError>)
        ensures
            rendered(r, command_text(self.targets_windows(), *cmd, true)),
    ;

    /// Renders a pipeline plan: annotated commands joined by ` | `, then ` &` when the
    /// last command runs in the background.
    fn render_pipe_plan(&self, pipe: &PipelineSpec) -> (r: Result<String, SyntaxError>)
        ensures
            rendered(r, pipeline_text(self.targets_windows(), *pipe, true)),
    ;
}

/// The POSIX `sh` renderer.
#[derive(Debug, Clone)]
pub struct PosixRenderer {
    pub quote: QuotePolicy,
}

impl Default for PosixRenderer {
    fn default() -> (r: PosixRenderer)
        ensures
            r.quote == QuotePolicy::Strict,
    {
        PosixRenderer { quote: QuotePolicy::Strict }
    }
}

impl Renderer for PosixRenderer {
    open spec fn targets_windows(&self) -> bool {
        false
    }

    fn render_cmd(&self, cmd: &CommandSpec) -> (r: Result<String, SyntaxError>) {
        render_one(false, cmd, false)
    }

    fn render_pipe(&self, pipe: &PipelineSpec) -> (r: Result<String, SyntaxError>) {
        render_pipeline(false, pipe, false)
    }

    fn render_cmd_plan(&self, cmd: &CommandSpec) -> (r: Result<String, SyntaxError>) {
        render_one(false, cmd, true)
    }

    fn render_pipe_plan(&self, pipe: &PipelineSpec) -> (r: Result<String, SyntaxError>) {
        render_pipeline(false, pipe, true)
    }
}

/// The Windows `cmd.exe` renderer.
#[derive(Debug, Clone)]
pub struct WinRenderer {
    pub quote: QuotePolicy,
}

impl Default for WinRenderer {
    fn default() -> (r: WinRenderer)
        ensures
            r.quote == QuotePolicy::Strict,
    {
        WinRenderer { quote: QuotePolicy::Strict }
    }
}

impl Renderer for WinRenderer {
    open spec fn targets_windows(&self) -> bool {
        true
    }

    fn render_cmd(&self, cmd: &CommandSpec) -> (r: Result<String, SyntaxError>) {
        render_one(true, cmd, false)
    }

    fn render_pipe(&self, pipe: &PipelineSpec) -> (r: Result<String, SyntaxError>) {
        render_pipeline(true, pipe, false)
    }

    fn render_cmd_plan(&self, cmd: &CommandSpec) -> (r: Result<String, SyntaxError>) {
        render_one(true, cmd, true)
    }

    fn render_pipe_plan(&self, pipe: &PipelineSpec) -> (r: Result<String, SyntaxError>) {
        render_pipeline(true, pipe, true)
    }
}

} // verus!
