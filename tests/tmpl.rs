use syntax::easy::{render_bash, render_jynx, render_simple, NoFunc, Store};
use syntax::tmpl::{Arg, FuncResolver, Segment, Template, VariableResolver};
use syntax::SyntaxError;

struct Vars;
impl VariableResolver for Vars {
    fn get(&self, key: &str) -> Option<String> {
        Some(format!("<{}>", key))
    }
}

struct NoVar;
impl VariableResolver for NoVar {
    fn get(&self, _: &str) -> Option<String> {
        None
    }
}

struct EchoFunc;
impl FuncResolver for EchoFunc {
    type State = ();
    fn call(&mut self, name: &str, args: &[String]) -> Result<String, SyntaxError> {
        Ok(format!(
            "<{}:{}:{}>",
            name,
            args.get(0).cloned().unwrap_or_default(),
            args.get(1).cloned().unwrap_or_default()
        ))
    }
}

struct Failing;
impl FuncResolver for Failing {
    type State = ();
    fn call(&mut self, name: &str, _: &[String]) -> Result<String, SyntaxError> {
        Err(SyntaxError::ResolveError(format!("no function {}", name)))
    }
}

#[test]
fn parse_literal_only() {
    let t = Template::parse("hello world").unwrap();
    assert!(matches!(&t.0[0], Segment::Lit(s) if s == "hello world"));
}

#[test]
fn parse_with_vars() {
    let t = Template::parse("hi ${USER} from ${HOST}").unwrap();
    let s = t.render(&Vars, &mut NoFunc).unwrap();
    assert_eq!(s, "hi <USER> from <HOST>");
}

#[test]
fn parse_dollar_escape() {
    let t = Template::parse("price: $$100").unwrap();
    let s = t.render(&Vars, &mut NoFunc).unwrap();
    assert_eq!(s, "price: $100");
}

#[test]
fn parse_unclosed_errors() {
    let err = Template::parse("${OPEN").unwrap_err();
    assert!(matches!(err, SyntaxError::ResolveError(_)));
}

#[test]
fn parse_jynx_func_basic() {
    let t = Template::parse_jynx("hello %pre:warn(ERROR) world").unwrap();
    let s = t.render(&NoVar, &mut EchoFunc).unwrap();
    assert_eq!(s, "hello <pre:warn:ERROR> world");
}

#[test]
fn parse_jynx_nested_parens() {
    let t = Template::parse_jynx("%pre:warn(Foo(bar))").unwrap();
    let s = t.render(&NoVar, &mut EchoFunc).unwrap();
    assert_eq!(s, "<pre:warn:Foo(bar)>");
}

#[test]
fn simple_var_and_literal() {
    let t = Template::parse_simple("Hello {{user.name}}!").unwrap();
    let s = t.render(&NoVar, &mut EchoFunc).unwrap();
    assert_eq!(s, "Hello !");
}

#[test]
fn simple_func_inline() {
    let t = Template::parse_simple("{{color:red(Hi)}} world").unwrap();
    let s = t.render(&NoVar, &mut EchoFunc).unwrap();
    assert_eq!(s, "<color:red:Hi> world");
}

#[test]
fn literal_passthrough_all_dialects() {
    let text = "plain text, with (parens) and } braces: 100% not";
    let plain = "plain text (x) } y";
    for t in [Template::parse(plain).unwrap(), Template::parse_jynx(plain).unwrap(), Template::parse_simple(plain).unwrap()] {
        assert_eq!(t.0.len(), 1);
        assert!(matches!(&t.0[0], Segment::Lit(s) if s == plain));
        assert_eq!(t.render(&Vars, &mut NoFunc).unwrap(), plain);
    }
    assert_eq!(render_simple(text, &Vars, &mut NoFunc).unwrap(), text);
    assert_eq!(Template::parse("").unwrap().0.len(), 0);
    assert_eq!(render_bash("", &Vars, &mut NoFunc).unwrap(), "");
}

#[test]
fn dollar_dollar_is_one_dollar() {
    assert_eq!(render_bash("a$$b", &Vars, &mut NoFunc).unwrap(), "a$b");
    assert_eq!(render_jynx("$$", &Vars, &mut NoFunc).unwrap(), "$");
    assert_eq!(render_jynx("x $$${A}", &Vars, &mut NoFunc).unwrap(), "x $<A>");
    assert_eq!(render_bash("$$$$", &Vars, &mut NoFunc).unwrap(), "$$");
}

#[test]
fn shell_bare_names_and_lone_dollar() {
    assert_eq!(render_bash("$HOME/x-y $_a.b $9 $", &Vars, &mut NoFunc).unwrap(), "<HOME>/x-y <_a>.b $9 $");
    let t = Template::parse("$HOME and ${HOME}").unwrap();
    assert!(matches!(&t.0[0], Segment::Var(s) if s == "HOME"));
    assert!(matches!(&t.0[2], Segment::Var(s) if s == "HOME"));
    assert_eq!(render_jynx("$HOME", &Vars, &mut NoFunc).unwrap(), "$HOME");
}

#[test]
fn unclosed_brace_always_fails() {
    for s in ["${", "abc ${x", "$A ${B} ${C", "$$ ${never"] {
        assert!(matches!(Template::parse(s), Err(SyntaxError::ResolveError(_))));
    }
    assert!(matches!(Template::parse_jynx("x ${y"), Err(SyntaxError::ResolveError(_))));
    assert!(Template::parse("$${not a var").is_ok());
}

#[test]
fn invalid_braced_name_fails() {
    assert!(matches!(Template::parse("${a b}"), Err(SyntaxError::ResolveError(_))));
    assert!(matches!(Template::parse("${}"), Err(SyntaxError::ResolveError(_))));
    assert!(matches!(Template::parse_jynx("${a.b}"), Err(SyntaxError::ResolveError(_))));
}

#[test]
fn jynx_iteration() {
    let t = Template::parse_jynx("%for:item(a,b,c)([${item}])(,)").unwrap();
    assert!(matches!(&t.0[0], Segment::For { var, sep: Some(_), .. } if var == "item"));
    let mut st = Store::new();
    let out = t.render(&Store::new(), &mut st).unwrap();
    assert_eq!(out, "[a],[b],[c]");
    assert_eq!(render_jynx("%for:i()(x)", &NoVar, &mut NoFunc).unwrap(), "");
    assert_eq!(render_jynx("%for:i(p,,q)(<${i}>)", &NoVar, &mut NoFunc).unwrap(), "<p><><q>");
    assert_eq!(render_jynx("${i}%for:i(1,2)(${i})(-)${i}", &Vars, &mut NoFunc).unwrap(), "<i>1-2<i>");
}

#[test]
fn jynx_fallbacks_and_errors() {
    assert_eq!(render_jynx("50% off", &NoVar, &mut EchoFunc).unwrap(), "50% off");
    assert_eq!(render_jynx("%name no colon", &NoVar, &mut EchoFunc).unwrap(), "%name no colon");
    assert_eq!(render_jynx("%f:arg rest(x)", &NoVar, &mut EchoFunc).unwrap(), "%f:arg rest(x)");
    assert!(matches!(Template::parse_jynx("%f:a(unclosed"), Err(SyntaxError::ResolveError(_))));
    assert!(matches!(Template::parse_jynx("%f:a(x)(y"), Err(SyntaxError::ResolveError(_))));
    assert_eq!(render_jynx("%f:(x)(y)", &NoVar, &mut EchoFunc).unwrap(), "<f::x>");
}

#[test]
fn jynx_args_are_templates() {
    let t = Template::parse_jynx("%f:k(a${X})(b)").unwrap();
    match &t.0[0] {
        Segment::Func { name, args } => {
            assert_eq!(name, "f");
            assert_eq!(args.len(), 3);
            assert!(matches!(&args[0], Arg::Text(s) if s == "k"));
            assert!(matches!(&args[1], Arg::Tpl(_)));
        }
        _ => panic!("expected a function segment"),
    }
    assert_eq!(t.render(&Vars, &mut EchoFunc).unwrap(), "<f:k:a<X>>");
}

#[test]
fn function_failure_aborts() {
    let r = render_jynx("a %f:x(y) b", &NoVar, &mut Failing);
    assert!(matches!(r, Err(SyntaxError::ResolveError(m)) if m == "no function f"));
    assert_eq!(render_jynx("no calls", &NoVar, &mut Failing).unwrap(), "no calls");
}

#[test]
fn store_records_set_calls() {
    let mut st = Store::new().with("b", "2").with("a", "1");
    assert_eq!(render_jynx("%set:c(three)%other:x()", &NoVar, &mut st).unwrap(), "");
    let m = st.get_map();
    assert_eq!(m, vec![("a".to_string(), "1".to_string()), ("b".to_string(), "2".to_string()), ("c".to_string(), "three".to_string())]);
    let vars = Store::new().with("who", "you");
    assert_eq!(render_simple("hi {{who}}{{! note }}.", &vars, &mut NoFunc).unwrap(), "hi you.");
}

#[test]
fn simple_blocks() {
    assert_eq!(render_simple("a {{ x y }} b", &Vars, &mut NoFunc).unwrap(), "a {{ x y }} b");
    assert_eq!(render_simple("open {{ never", &Vars, &mut NoFunc).unwrap(), "open {{ never");
    assert_eq!(render_simple("{{  v.1  }}", &Vars, &mut NoFunc).unwrap(), "<v.1>");
    assert_eq!(render_simple("{{f:a(x)zz}}", &Vars, &mut EchoFunc).unwrap(), "{{f:a(x)zz}}");
    assert_eq!(render_simple("{{f:a(${V})(2)}}", &Vars, &mut EchoFunc).unwrap(), "<f:a:<V>>");
    assert_eq!(render_simple("{{for:x(1,2)($x)( )}}", &NoVar, &mut NoFunc).unwrap(), "1 2");
    assert!(matches!(Template::parse_simple("{{f:a(${V)}}"), Err(SyntaxError::ResolveError(_))));
}
