//! The template syntax tree shared by the three dialects, its mathematical model,
//! the resolver capabilities and the evaluator.
use vstd::prelude::*;
use crate::error::SyntaxError;

verus! {

/// A parsed template: an ordered sequence of segments.
#[derive(Debug, Default)]
pub struct Template(pub Vec<Segment>);

/// One node of a template.
#[derive(Debug)]
pub enum Segment {
    /// Text emitted verbatim.
    Lit(String),
    /// A variable reference; an unknown name renders as the empty string.
    Var(String),
    /// Evaluates `value`, hands `[name, value]` to the function capability under the
    /// reserved name `set`, and emits nothing.
    Assign { name: String, value: Template },
    /// A call of the function capability with the evaluated arguments.
    Func { name: String, args: Vec<Arg> },
    /// Evaluates `body` once per comma-separated item of `list`, with `var` bound to the item.
    For { var: String, list: Template, body: Template, sep: Option<Template> },
}

/// An argument of a function segment.
#[derive(Debug)]
pub enum Arg {
    /// Literal text.
    Text(String),
    /// A nested template, evaluated before the call.
    Tpl(Template),
}

/// The mathematical model of a segment.
pub enum Seg {
    Lit(Seq<char>),
    Var(Seq<char>),
    Assign(Seq<char>, Seq<Seg>),
    Call(Seq<char>, Seq<ArgM>),
    Each(Seq<char>, Seq<Seg>, Seq<Seg>, Option<Seq<Seg>>),
}

/// The mathematical model of a function argument.
pub enum ArgM {
    Text(Seq<char>),
    Sub(Seq<Seg>),
}

/// The model of a template.
pub open spec fn tpl_model(t: Template) -> Seq<Seg>
    decreases t, 0nat,
{
    segs_model(t.0@)
}

/// The model of a sequence of segments, one model per segment.
pub open spec fn segs_model(v: Seq<Segment>) -> Seq<Seg>
    decreases v, 0nat,
{
    if v.len() == 0 {
        Seq::empty()
    } else {
        segs_model(v.drop_last()).push(seg_model(v.last()))
    }
}

/// The model of one segment.
pub open spec fn seg_model(s: Segment) -> Seg
    decreases s, 0nat,
{
    match s {
        Segment::Lit(x) => Seg::Lit(x@),
        Segment::Var(k) => Seg::Var(k@),
        Segment::Assign { name, value } => Seg::Assign(name@, tpl_model(value)),
        Segment::Func { name, args } => Seg::Call(name@, args_model(args@)),
        Segment::For { var, list, body, sep } => Seg::Each(
            var@,
            tpl_model(list),
            tpl_model(body),
            match sep {
                Some(t) => Some(tpl_model(t)),
                None => None,
            },
        ),
    }
}

/// The models of a sequence of arguments.
pub open spec fn args_model(v: Seq<Arg>) -> Seq<ArgM>
    decreases v, 0nat,
{
    if v.len() == 0 {
        Seq::empty()
    } else {
        args_model(v.drop_last()).push(
            match v.last() {
                Arg::Text(x) => ArgM::Text(x@),
                Arg::Tpl(t) => ArgM::Sub(tpl_model(t)),
            },
        )
    }
}

/// The characters of an optional string.
pub open spec fn opt_view(o: Option<String>) -> Option<Seq<char>> {
    match o {
        Some(s) => Some(s@),
        None => None,
    }
}

/// The characters of a string result.
pub open spec fn res_view(r: Result<String, SyntaxError>) -> Result<Seq<char>, SyntaxError> {
    match r {
        Ok(s) => Ok(s@),
        Err(e) => Err(e),
    }
}

/// The characters of each string of a sequence.
pub open spec fn strs_view(v: Seq<String>) -> Seq<Seq<char>> {
    v.map_values(|s: String| s@)
}

/// The variable-lookup capability.
pub trait VariableResolver {
    /// The value that `key` is bound to, if any. Verified implementations define it; the
    /// default leaves it unspecified, for implementations written in plain Rust.
    closed spec fn lookup(&self, key: Seq<char>) -> Option<Seq<char>> {
        arbitrary()
    }

    /// Looks `key` up.
    fn get(&self, key: &str) -> (r: Option<String>)
        ensures
            opt_view(r) == self.lookup(key@),
    ;
}

/// The function-call capability. A call may change the capability's own state (a
/// store that records assignments), which is why it takes `&mut self`.
pub trait FuncResolver {
    /// The model of the capability's state.
    type State;

    /// The current state. Verified implementations define this and the two functions
    /// below; the defaults leave them unspecified, for implementations written in plain
    /// Rust.
    closed spec fn state(&self) -> Self::State {
        arbitrary()
    }

    /// What a call of `name` on `args` returns in state `st`.
    closed spec fn outcome(st: Self::State, name: Seq<char>, args: Seq<Seq<char>>) -> Result<
        Seq<char>,
        SyntaxError,
    > {
        arbitrary()
    }

    /// The state after a call of `name` on `args` in state `st`.
    closed spec fn after(st: Self::State, name: Seq<char>, args: Seq<Seq<char>>) -> Self::State {
        arbitrary()
    }

    /// Calls `name` with `args`.
    fn call(&mut self, name: &str, args: &[String]) -> (r: Result<String, SyntaxError>)
        ensures
            res_view(r) == Self::outcome(old(self).state(), name@, strs_view(args@)),
            final(self).state() == Self::after(old(self).state(), name@, strs_view(args@)),
    ;
}

/// The name under which an assignment reaches the function capability.
pub open spec fn set_name() -> Seq<char> {
    seq!['s', 'e', 't']
}

/// Iteration bindings, innermost last.
pub type Scope = Seq<(Seq<char>, Seq<char>)>;

/// The model of a stack of bindings.
pub open spec fn scope_model(v: Seq<(String, String)>) -> Scope {
    v.map_values(|p: (String, String)| (p.0@, p.1@))
}

/// The innermost binding of `key`.
pub open spec fn scope_find(sc: Scope, key: Seq<char>) -> Option<Seq<char>>
    decreases sc.len(),
{
    if sc.len() == 0 {
        None
    } else if sc.last().0 == key {
        Some(sc.last().1)
    } else {
        scope_find(sc.drop_last(), key)
    }
}

/// The value of a variable reference: the innermost binding, else the resolver's value,
/// else the empty string.
pub open spec fn resolve<V: VariableResolver>(sc: Scope, vars: V, key: Seq<char>) -> Seq<char> {
    match scope_find(sc, key) {
        Some(v) => v,
        None => match vars.lookup(key) {
            Some(v) => v,
            None => Seq::empty(),
        },
    }
}

/// The items of a list: empty text has none; other text is cut at each comma.
pub open spec fn list_items(l: Seq<char>) -> Seq<Seq<char>> {
    if l.len() == 0 {
        Seq::empty()
    } else {
        split_commas(l)
    }
}

/// The pieces of `s` between commas (one more than the commas it holds).
pub open spec fn split_commas(s: Seq<char>) -> Seq<Seq<char>>
    decreases s.len(),
{
    if s.len() == 0 {
        seq![Seq::empty()]
    } else {
        let p = split_commas(s.drop_last());
        if s.last() == ',' {
            p.push(Seq::empty())
        } else {
            p.update(p.len() - 1, p.last().push(s.last()))
        }
    }
}

/// The outcome of evaluating a template: the function capability's final state and the
/// text, or the first failure. Segments are evaluated left to right.
pub open spec fn eval_segs<V: VariableResolver, F: FuncResolver>(
    t: Seq<Seg>,
    vars: V,
    f: F::State,
    sc: Scope,
) -> (F::State, Result<Seq<char>, SyntaxError>)
    decreases t, 0nat,
{
    if t.len() == 0 {
        (f, Ok(Seq::empty()))
    } else {
        let (f1, r1) = eval_segs::<V, F>(t.drop_last(), vars, f, sc);
        match r1 {
            Err(e) => (f1, Err(e)),
            Ok(a) => {
                let (f2, r2) = eval_seg::<V, F>(t.last(), vars, f1, sc);
                match r2 {
                    Err(e) => (f2, Err(e)),
                    Ok(b) => (f2, Ok(a + b)),
                }
            },
        }
    }
}

/// The outcome of evaluating one segment.
pub open spec fn eval_seg<V: VariableResolver, F: FuncResolver>(
    s: Seg,
    vars: V,
    f: F::State,
    sc: Scope,
) -> (F::State, Result<Seq<char>, SyntaxError>)
    decreases s, 0nat,
{
    match s {
        Seg::Lit(x) => (f, Ok(x)),
        Seg::Var(k) => (f, Ok(resolve(sc, vars, k))),
        Seg::Assign(name, value) => {
            let (f1, r) = eval_segs::<V, F>(value, vars, f, sc);
            match r {
                Err(e) => (f1, Err(e)),
                Ok(v) => (F::after(f1, set_name(), seq![name, v]), Ok(Seq::empty())),
            }
        },
        Seg::Call(name, args) => {
            let (f1, r) = eval_args::<V, F>(args, vars, f, sc);
            match r {
                Err(e) => (f1, Err(e)),
                Ok(vals) => (F::after(f1, name, vals), F::outcome(f1, name, vals)),
            }
        },
        Seg::Each(var, list, body, sep) => {
            let (f1, rl) = eval_segs::<V, F>(list, vars, f, sc);
            match rl {
                Err(e) => (f1, Err(e)),
                Ok(l) => {
                    let (f2, rs) = match sep {
                        Some(st) => eval_segs::<V, F>(st, vars, f1, sc),
                        None => (f1, Ok(Seq::empty())),
                    };
                    match rs {
                        Err(e) => (f2, Err(e)),
                        Ok(sv) => eval_each::<V, F>(var, list_items(l), body, sv, vars, f2, sc),
                    }
                },
            }
        },
    }
}

/// The outcome of evaluating function arguments, left to right.
pub open spec fn eval_args<V: VariableResolver, F: FuncResolver>(
    args: Seq<ArgM>,
    vars: V,
    f: F::State,
    sc: Scope,
) -> (F::State, Result<Seq<Seq<char>>, SyntaxError>)
    decreases args, 0nat,
{
    if args.len() == 0 {
        (f, Ok(Seq::empty()))
    } else {
        let (f1, r1) = eval_args::<V, F>(args.drop_last(), vars, f, sc);
        match r1 {
            Err(e) => (f1, Err(e)),
            Ok(a) => match args.last() {
                ArgM::Text(x) => (f1, Ok(a.push(x))),
                ArgM::Sub(t) => {
                    let (f2, r2) = eval_segs::<V, F>(t, vars, f1, sc);
                    match r2 {
                        Err(e) => (f2, Err(e)),
                        Ok(b) => (f2, Ok(a.push(b))),
                    }
                },
            },
        }
    }
}

/// The outcome of evaluating `body` once per item, each time with `var` bound to the
/// item in a new innermost scope, the results joined by `sep`.
pub open spec fn eval_each<V: VariableResolver, F: FuncResolver>(
    var: Seq<char>,
    items: Seq<Seq<char>>,
    body: Seq<Seg>,
    sep: Seq<char>,
    vars: V,
    f: F::State,
    sc: Scope,
) -> (F::State, Result<Seq<char>, SyntaxError>)
    decreases body, items.len(),
{
    if items.len() == 0 {
        (f, Ok(Seq::empty()))
    } else {
        let (f1, r1) = eval_each::<V, F>(var, items.drop_last(), body, sep, vars, f, sc);
        match r1 {
            Err(e) => (f1, Err(e)),
            Ok(a) => {
                let (f2, r2) = eval_segs::<V, F>(body, vars, f1, sc.push((var, items.last())));
                match r2 {
                    Err(e) => (f2, Err(e)),
                    Ok(b) => (f2, Ok(if items.len() == 1 { b } else { a + sep + b })),
                }
            },
        }
    }
}

proof fn lemma_segs_err_prefix<V: VariableResolver, F: FuncResolver>(
    t: Seq<Seg>,
    k: int,
    vars: V,
    f: F::State,
    sc: Scope,
)
    requires
        0 <= k <= t.len(),
        eval_segs::<V, F>(t.take(k), vars, f, sc).1 is Err,
    ensures
        eval_segs::<V, F>(t, vars, f, sc) == eval_segs::<V, F>(t.take(k), vars, f, sc),
    decreases t.len(),
{
    if t.len() == k {
        assert(t.take(k) =~= t);
    } else {
        assert(t.drop_last().take(k) =~= t.take(k));
        lemma_segs_err_prefix::<V, F>(t.drop_last(), k, vars, f, sc);
    }
}

proof fn lemma_args_err_prefix<V: VariableResolver, F: FuncResolver>(
    t: Seq<ArgM>,
    k: int,
    vars: V,
    f: F::State,
    sc: Scope,
)
    requires
        0 <= k <= t.len(),
        eval_args::<V, F>(t.take(k), vars, f, sc).1 is Err,
    ensures
        eval_args::<V, F>(t, vars, f, sc) == eval_args::<V, F>(t.take(k), vars, f, sc),
    decreases t.len(),
{
    if t.len() == k {
        assert(t.take(k) =~= t);
    } else {
        assert(t.drop_last().take(k) =~= t.take(k));
        lemma_args_err_prefix::<V, F>(t.drop_last(), k, vars, f, sc);
    }
}

proof fn lemma_each_err_prefix<V: VariableResolver, F: FuncResolver>(
    var: Seq<char>,
    items: Seq<Seq<char>>,
    k: int,
    body: Seq<Seg>,
    sep: Seq<char>,
    vars: V,
    f: F::State,
    sc: Scope,
)
    requires
        0 <= k <= items.len(),
        eval_each::<V, F>(var, items.take(k), body, sep, vars, f, sc).1 is Err,
    ensures
        eval_each::<V, F>(var, items, body, sep, vars, f, sc) == eval_each::<V, F>(
            var,
            items.take(k),
            body,
            sep,
            vars,
            f,
            sc,
        ),
    decreases items.len(),
{
    if items.len() == k {
        assert(items.take(k) =~= items);
    } else {
        assert(items.drop_last().take(k) =~= items.take(k));
        lemma_each_err_prefix::<V, F>(var, items.drop_last(), k, body, sep, vars, f, sc);
    }
}

proof fn lemma_split_commas_len(s: Seq<char>)
    ensures
        split_commas(s).len() >= 1,
    decreases s.len(),
{
    if s.len() > 0 {
        lemma_split_commas_len(s.drop_last());
    }
}

/// Cuts a list at its commas.
fn split_list(l: &String) -> (r: Vec<String>)
    ensures
        strs_view(r@) == list_items(l@),
{
    let cs = crate::text::chars_of(l.as_str());
    let mut items: Vec<String> = Vec::new();
    if cs.len() == 0 {
        proof {
            assert(strs_view(items@) =~= list_items(l@));
        }
        return items;
    }
    let mut start: usize = 0;
    let mut i: usize = 0;
    proof {
        assert(cs@.take(0) =~= Seq::<char>::empty());
        assert(strs_view(items@).push(cs@.subrange(0, 0)) =~= seq![Seq::<char>::empty()]);
    }
    while i < cs.len()
        invariant
            start <= i <= cs.len(),
            strs_view(items@).push(cs@.subrange(start as int, i as int)) == split_commas(
                cs@.take(i as int),
            ),
        decreases cs.len() - i,
    {
        proof {
            assert(cs@.take(i + 1).drop_last() =~= cs@.take(i as int));
            lemma_split_commas_len(cs@.take(i as int));
        }
        if cs[i] == ',' {
            let piece = crate::text::slice_string(&cs, start, i);
            let ghost before = items@;
            items.push(piece);
            proof {
                assert(strs_view(items@) =~= strs_view(before).push(piece@));
            }
            start = i + 1;
            proof {
                assert(cs@.subrange(start as int, i + 1) =~= Seq::<char>::empty());
                assert(strs_view(items@).push(Seq::empty()) =~= split_commas(
                    cs@.take(i as int),
                ).push(Seq::empty()));
            }
        } else {
            proof {
                assert(cs@.subrange(start as int, i + 1) =~= cs@.subrange(
                    start as int,
                    i as int,
                ).push(cs@[i as int]));
                let p = split_commas(cs@.take(i as int));
                assert(strs_view(items@).push(cs@.subrange(start as int, i + 1)) =~= p.update(
                    p.len() - 1,
                    p.last().push(cs@[i as int]),
                ));
            }
        }
        i = i + 1;
    }
    let last = crate::text::slice_string(&cs, start, i);
    let ghost before = items@;
    items.push(last);
    proof {
        assert(cs@.take(i as int) =~= l@);
        assert(strs_view(items@) =~= strs_view(before).push(last@));
    }
    items
}

/// The innermost binding of `key` in `scope`.
fn find_binding(scope: &Vec<(String, String)>, key: &String) -> (r: Option<String>)
    ensures
        opt_view(r) == scope_find(scope_model(scope@), key@),
{
    let ghost sc = scope_model(scope@);
    let mut i: usize = scope.len();
    proof {
        assert(sc.take(i as int) =~= sc);
    }
    while i > 0
        invariant
            i <= scope.len(),
            sc == scope_model(scope@),
            scope_find(sc, key@) == scope_find(sc.take(i as int), key@),
        decreases i,
    {
        proof {
            assert(sc.take(i as int).drop_last() =~= sc.take(i - 1));
        }
        if scope[i - 1].0 == *key {
            return Some(scope[i - 1].1.clone());
        }
        i = i - 1;
    }
    None
}

#[verifier::loop_isolation(false)]
/// Evaluates a template in the given scope. The scope is the same on return, also after
/// a failure.
fn eval_template<V: VariableResolver, F: FuncResolver>(
    t: &Template,
    vars: &V,
    funcs: &mut F,
    scope: &mut Vec<(String, String)>,
) -> (r: Result<String, SyntaxError>)
    ensures
        (final(funcs).state(), res_view(r)) == eval_segs::<V, F>(
            tpl_model(*t),
            *vars,
            old(funcs).state(),
            scope_model(old(scope)@),
        ),
        final(scope)@ == old(scope)@,
    decreases *t, 0nat,
{
    let ghost f0 = funcs.state();
    let ghost s0 = scope@;
    let ghost sc = scope_model(scope@);
    let mut out = String::new();
    let mut i: usize = 0;
    proof {
        assert(t.0@.take(0) =~= Seq::<Segment>::empty());
    }
    while i < t.0.len()
        invariant
            i <= t.0.len(),
            scope@ == s0,
            sc == scope_model(s0),
            eval_segs::<V, F>(segs_model(t.0@.take(i as int)), *vars, f0, sc) == (funcs.state(), Ok::<
                Seq<char>,
                SyntaxError,
            >(out@)),
        decreases t.0.len() - i,
    {
        proof {
            assert(t.0@.take(i + 1).drop_last() =~= t.0@.take(i as int));
            let m = segs_model(t.0@.take(i as int));
            assert(segs_model(t.0@.take(i + 1)) == m.push(seg_model(t.0@[i as int])));
            assert(m.push(seg_model(t.0@[i as int])).drop_last() =~= m);
        }
        let r = eval_segment(&t.0[i], vars, funcs, scope);
        match r {
            Err(e) => {
                proof {
                    assert(t.0@.take(t.0.len() as int) =~= t.0@);
                    lemma_segs_model_take(t.0@, i + 1);
                    lemma_segs_err_prefix::<V, F>(tpl_model(*t), i + 1, *vars, f0, sc);
                }
                return Err(e);
            },
            Ok(x) => {
                out.append(x.as_str());
            },
        }
        i = i + 1;
    }
    proof {
        assert(t.0@.take(t.0.len() as int) =~= t.0@);
    }
    Ok(out)
}

proof fn lemma_segs_model_take(v: Seq<Segment>, k: int)
    requires
        0 <= k <= v.len(),
    ensures
        segs_model(v).take(k) == segs_model(v.take(k)),
        segs_model(v).len() == v.len(),
    decreases v.len(),
{
    if v.len() > 0 {
        lemma_segs_model_take(v.drop_last(), if k == v.len() { k - 1 } else { k });
        if k == v.len() {
            assert(v.take(k) =~= v);
            assert(segs_model(v).take(k) =~= segs_model(v));
        } else {
            assert(v.drop_last().take(k) =~= v.take(k));
            assert(segs_model(v).take(k) =~= segs_model(v.drop_last()).take(k));
        }
    }
}

proof fn lemma_args_model_take(v: Seq<Arg>, k: int)
    requires
        0 <= k <= v.len(),
    ensures
        args_model(v).take(k) == args_model(v.take(k)),
        args_model(v).len() == v.len(),
    decreases v.len(),
{
    if v.len() > 0 {
        lemma_args_model_take(v.drop_last(), if k == v.len() { k - 1 } else { k });
        if k == v.len() {
            assert(v.take(k) =~= v);
            assert(args_model(v).take(k) =~= args_model(v));
        } else {
            assert(v.drop_last().take(k) =~= v.take(k));
            assert(args_model(v).take(k) =~= args_model(v.drop_last()).take(k));
        }
    }
}

/// Evaluates one segment.
#[verifier::loop_isolation(false)]
fn eval_segment<V: VariableResolver, F: FuncResolver>(
    s: &Segment,
    vars: &V,
    funcs: &mut F,
    scope: &mut Vec<(String, String)>,
) -> (r: Result<String, SyntaxError>)
    ensures
        (final(funcs).state(), res_view(r)) == eval_seg::<V, F>(
            seg_model(*s),
            *vars,
            old(funcs).state(),
            scope_model(old(scope)@),
        ),
        final(scope)@ == old(scope)@,
    decreases *s, 0nat,
{
    match s {
        Segment::Lit(x) => Ok(x.clone()),
        Segment::Var(k) => {
            match find_binding(scope, k) {
                Some(v) => Ok(v),
                None => match vars.get(k.as_str()) {
                    Some(v) => Ok(v),
                    None => Ok(String::new()),
                },
            }
        },
        Segment::Assign { name, value } => {
            let r = eval_template(value, vars, funcs, scope);
            match r {
                Err(e) => Err(e),
                Ok(v) => {
                    let args = vec![name.clone(), v];
                    proof {
                        reveal_strlit("set");
                        assert(strs_view(args@) =~= seq![name@, v@]);
                    }
                    let _ = funcs.call("set", args.as_slice());
                    proof {
                        assert("set"@ =~= set_name());
                    }
                    Ok(String::new())
                },
            }
        },
        Segment::Func { name, args } => {
            let ghost f0 = funcs.state();
            let ghost sc = scope_model(scope@);
            let mut vals: Vec<String> = Vec::new();
            let mut j: usize = 0;
            proof {
                assert(args@.take(0) =~= Seq::<Arg>::empty());
                assert(strs_view(vals@) =~= Seq::<Seq<char>>::empty());
            }
            while j < args.len()
                invariant
                    j <= args.len(),
                    scope@ == old(scope)@,
                    sc == scope_model(old(scope)@),
                    eval_args::<V, F>(args_model(args@.take(j as int)), *vars, f0, sc) == (funcs.state(), Ok::<
                        Seq<Seq<char>>,
                        SyntaxError,
                    >(strs_view(vals@))),
                decreases args.len() - j,
            {
                proof {
                    assert(args@.take(j + 1).drop_last() =~= args@.take(j as int));
                    let m = args_model(args@.take(j as int));
                    assert(args_model(args@.take(j + 1)).drop_last() =~= m);
                }
                let ghost before = vals@;
                match &args[j] {
                    Arg::Text(x) => {
                        vals.push(x.clone());
                    },
                    Arg::Tpl(t) => {
                        let r = eval_template(t, vars, funcs, scope);
                        match r {
                            Err(e) => {
                                proof {
                                    lemma_args_model_take(args@, j + 1);
                                    assert(args@.take(args.len() as int) =~= args@);
                                    lemma_args_err_prefix::<V, F>(args_model(args@), j + 1, *vars, f0, sc);
                                }
                                return Err(e);
                            },
                            Ok(v) => {
                                vals.push(v);
                            },
                        }
                    },
                }
                proof {
                    assert(strs_view(vals@) =~= strs_view(before).push(vals@.last()@));
                }
                j = j + 1;
            }
            proof {
                assert(args@.take(args.len() as int) =~= args@);
            }
            let sl = vals.as_slice();
            proof {
                assert(eval_args::<V, F>(args_model(args@), *vars, f0, sc).1 == Ok::<Seq<Seq<char>>, SyntaxError>(strs_view(sl@)));
            }
            funcs.call(name.as_str(), sl)
        },
        Segment::For { var, list, body, sep } => {
            let rl = eval_template(list, vars, funcs, scope);
            let l = match rl {
                Err(e) => {
                    return Err(e);
                },
                Ok(l) => l,
            };
            let sv = match sep {
                Some(st) => match eval_template(st, vars, funcs, scope) {
                    Err(e) => {
                        return Err(e);
                    },
                    Ok(x) => x,
                },
                None => String::new(),
            };
            let items = split_list(&l);
            let ghost f0 = funcs.state();
            let ghost sc = scope_model(scope@);
            let ghost its = strs_view(items@);
            let mut out = String::new();
            let mut k: usize = 0;
            proof {
                assert(its.take(0) =~= Seq::<Seq<char>>::empty());
            }
            while k < items.len()
                invariant
                    k <= items.len(),
                    its == strs_view(items@),
                    its.len() == items.len(),
                    scope@ == old(scope)@,
                    sc == scope_model(old(scope)@),
                    eval_each::<V, F>(var@, its.take(k as int), tpl_model(*body), sv@, *vars, f0, sc) == (
                    funcs.state(), Ok::<Seq<char>, SyntaxError>(out@)),
                decreases items.len() - k,
            {
                proof {
                    assert(its.take(k + 1).drop_last() =~= its.take(k as int));
                }
                scope.push((var.clone(), items[k].clone()));
                proof {
                    assert(scope_model(scope@) =~= sc.push((var@, its[k as int])));
                }
                let r = eval_template(body, vars, funcs, scope);
                let _ = scope.pop();
                proof {
                    assert(scope@ =~= old(scope)@);
                }
                match r {
                    Err(e) => {
                        proof {
                            assert(its.take(items.len() as int) =~= its);
                            lemma_each_err_prefix::<V, F>(var@, its, k + 1, tpl_model(*body), sv@, *vars, f0, sc);
                        }
                        return Err(e);
                    },
                    Ok(b) => {
                        if k > 0 {
                            out.append(sv.as_str());
                        }
                        out.append(b.as_str());
                    },
                }
                k = k + 1;
            }
            proof {
                assert(its.take(items.len() as int) =~= its);
            }
            Ok(out)
        },
    }
}

impl Template {
    /// Parses shell-style text (see `parser::bash::parse`).
    pub fn parse(input: &str) -> (r: Result<Template, SyntaxError>)
        ensures
            crate::parser::parsed(crate::parser::Dialect::Shell, input@, r),
    {
        crate::parser::bash::parse(input)
    }

    /// Parses markup-style text (see `parser::jynx::parse_jynx`).
    pub fn parse_jynx(input: &str) -> (r: Result<Template, SyntaxError>)
        ensures
            crate::parser::parsed(crate::parser::Dialect::Markup, input@, r),
    {
        crate::parser::jynx::parse_jynx(input)
    }

    /// Parses double-brace text (see `parser::simple::parse_simple`).
    pub fn parse_simple(input: &str) -> (r: Result<Template, SyntaxError>)
        ensures
            crate::parser::parsed(crate::parser::Dialect::Brace, input@, r),
    {
        crate::parser::simple::parse_simple(input)
    }

    /// Evaluates the template: variable references through `vars` (unknown names give
    /// empty text), function segments through `funcs`. The first failure of a call ends
    /// the evaluation and is returned.
    pub fn render<V: VariableResolver, F: FuncResolver>(&self, vars: &V, funcs: &mut F) -> (r:
        Result<String, SyntaxError>)
        ensures
            (final(funcs).state(), res_view(r)) == eval_segs::<V, F>(
                tpl_model(*self),
                *vars,
                old(funcs).state(),
                Seq::empty(),
            ),
    {
        let mut scope: Vec<(String, String)> = Vec::new();
        proof {
            assert(scope_model(scope@) =~= Seq::empty());
        }
        eval_template(self, vars, funcs, &mut scope)
    }
}

} // verus!
