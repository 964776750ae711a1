//! Ready-made resolvers and one-call helpers that parse and evaluate a template.
use vstd::prelude::*;
use crate::cmd::{EnvMap, entry_of, insert_sorted, pairs_view};
use crate::error::SyntaxError;
use crate::parser::{Dialect, parse_spec};
use crate::tmpl::{VariableResolver, FuncResolver, eval_segs, set_name, res_view};

verus! {

/// A function capability that answers every call with empty text.
#[derive(Debug, Clone, Copy, Default)]
pub struct NoFunc;

impl FuncResolver for NoFunc {
    type State = ();

    open spec fn state(&self) -> () {
        ()
    }

    open spec fn outcome(st: (), name: Seq<char>, args: Seq<Seq<char>>) -> Result<
        Seq<char>,
        SyntaxError,
    > {
        Ok(Seq::empty())
    }

    open spec fn after(st: (), name: Seq<char>, args: Seq<Seq<char>>) -> () {
        ()
    }

    fn call(&mut self, name: &str, args: &[String]) -> (r: Result<String, SyntaxError>) {
        Ok(String::new())
    }
}

/// An in-memory store of variables. As a function capability it records `set` calls
/// (`[name, value]`) and answers every call with empty text.
#[derive(Debug, Clone, Default)]
pub struct Store {
    m: EnvMap,
}

/// The bindings of a store after a call of `name` on `args`.
pub open spec fn store_after(
    st: Seq<(Seq<char>, Seq<char>)>,
    name: Seq<char>,
    args: Seq<Seq<char>>,
) -> Seq<(Seq<char>, Seq<char>)> {
    if name == set_name() && args.len() >= 2 {
        insert_sorted(st, args[0], args[1])
    } else {
        st
    }
}

impl Store {
    /// The bindings, in increasing key order.
    pub closed spec fn view(&self) -> Seq<(Seq<char>, Seq<char>)> {
        self.m@
    }

    /// An empty store.
    pub fn new() -> (r: Store)
        ensures
            r@.len() == 0,
    {
        Store { m: EnvMap::new() }
    }

    /// The store with `k` bound to `v`.
    pub fn with(self, k: &str, v: &str) -> (r: Store)
        ensures
            r@ == insert_sorted(self@, k@, v@),
    {
        let mut s = self;
        s.m.insert(String::from_str(k), String::from_str(v));
        s
    }

    /// The bindings, in increasing key order.
    pub fn get_map(&self) -> (r: Vec<(String, String)>)
        ensures
            pairs_view(r@) == self@,
    {
        let e = self.m.clone();
        let src = e.entries();
        let ghost s = self@;
        let mut v: Vec<(String, String)> = Vec::new();
        let mut i: usize = 0;
        while i < src.len()
            invariant
                i <= src.len(),
                s == pairs_view(src@),
                pairs_view(v@) == s.take(i as int),
            decreases src.len() - i,
        {
            let ghost before = v@;
            v.push((src[i].0.clone(), src[i].1.clone()));
            proof {
                assert(pairs_view(v@) =~= pairs_view(before).push(s[i as int]));
                assert(s.take(i + 1) =~= s.take(i as int).push(s[i as int]));
            }
            i = i + 1;
        }
        proof {
            assert(s.take(i as int) =~= s);
        }
        v
    }
}

impl VariableResolver for Store {
    open spec fn lookup(&self, key: Seq<char>) -> Option<Seq<char>> {
        entry_of(self@, key)
    }

    fn get(&self, key: &str) -> (r: Option<String>) {
        self.m.get(key)
    }
}

impl FuncResolver for Store {
    type State = Seq<(Seq<char>, Seq<char>)>;

    open spec fn state(&self) -> Seq<(Seq<char>, Seq<char>)> {
        self@
    }

    open spec fn outcome(
        st: Seq<(Seq<char>, Seq<char>)>,
        name: Seq<char>,
        args: Seq<Seq<char>>,
    ) -> Result<Seq<char>, SyntaxError> {
        Ok(Seq::empty())
    }

    open spec fn after(
        st: Seq<(Seq<char>, Seq<char>)>,
        name: Seq<char>,
        args: Seq<Seq<char>>,
    ) -> Seq<(Seq<char>, Seq<char>)> {
        store_after(st, name, args)
    }

    fn call(&mut self, name: &str, args: &[String]) -> (r: Result<String, SyntaxError>) {
        proof {
            reveal_strlit("set");
        }
        let n = String::from_str(name);
        let set = String::from_str("set");
        proof {
            assert("set"@ =~= set_name());
        }
        if n == set && args.len() >= 2 {
            proof {
                assert(crate::tmpl::strs_view(args@)[0] == args@[0]@);
                assert(crate::tmpl::strs_view(args@)[1] == args@[1]@);
            }
            self.m.insert(args[0].clone(), args[1].clone());
        }
        Ok(String::new())
    }
}

/// What evaluating text of dialect `d` gives: the parse failure, or the evaluation's
/// outcome (the function capability's final state and the text or its failure).
pub open spec fn render_outcome<V: VariableResolver, F: FuncResolver>(
    d: Dialect,
    tpl: Seq<char>,
    vars: V,
    f: F::State,
) -> Option<(F::State, Result<Seq<char>, SyntaxError>)> {
    match parse_spec(d, tpl) {
        Some(t) => Some(eval_segs::<V, F>(t, vars, f, Seq::empty())),
        None => None,
    }
}

/// `r` and the final state agree with `render_outcome`; a parse failure leaves the
/// capability untouched.
pub open spec fn rendered_with<V: VariableResolver, F: FuncResolver>(
    d: Dialect,
    tpl: Seq<char>,
    vars: V,
    f0: F::State,
    f1: F::State,
    r: Result<String, SyntaxError>,
) -> bool {
    match render_outcome::<V, F>(d, tpl, vars, f0) {
        Some((f, o)) => f1 == f && res_view(r) == o,
        None => f1 == f0 && r matches Err(SyntaxError::ResolveError(_)),
    }
}

fn render_in<V: VariableResolver, F: FuncResolver>(
    d: Dialect,
    tpl: &str,
    vars: &V,
    funcs: &mut F,
) -> (r: Result<String, SyntaxError>)
    ensures
        rendered_with::<V, F>(d, tpl@, *vars, old(funcs).state(), final(funcs).state(), r),
{
    match crate::parser::parse_text(d, tpl) {
        Err(e) => Err(e),
        Ok(t) => t.render(vars, funcs),
    }
}

/// Parses shell-style text and evaluates it.
pub fn render_bash<V: VariableResolver, F: FuncResolver>(tpl: &str, vars: &V, funcs: &mut F) -> (r:
    Result<String, SyntaxError>)
    ensures
        rendered_with::<V, F>(Dialect::Shell, tpl@, *vars, old(funcs).state(), final(funcs).state(), r),
{
    render_in(Dialect::Shell, tpl, vars, funcs)
}

/// Parses markup-style text and evaluates it.
pub fn render_jynx<V: VariableResolver, F: FuncResolver>(tpl: &str, vars: &V, funcs: &mut F) -> (r:
    Result<String, SyntaxError>)
    ensures
        rendered_with::<V, F>(Dialect::Markup, tpl@, *vars, old(funcs).state(), final(funcs).state(), r),
{
    render_in(Dialect::Markup, tpl, vars, funcs)
}

/// Parses double-brace text and evaluates it.
pub fn render_simple<V: VariableResolver, F: FuncResolver>(tpl: &str, vars: &V, funcs: &mut F) -> (r:
    Result<String, SyntaxError>)
    ensures
        rendered_with::<V, F>(Dialect::Brace, tpl@, *vars, old(funcs).state(), final(funcs).state(), r),
{
    render_in(Dialect::Brace, tpl, vars, funcs)
}

} // verus!
