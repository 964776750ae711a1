use syntax::cmd::{CommandSpec, EnvMap, PipelineSpec, Stdio};
use syntax::exec::Planner;
use syntax::render::{quote_sh, quote_win, PosixRenderer, Renderer, WinRenderer};
use syntax::SyntaxError;

#[test]
fn quote_sh_basic() {
    assert_eq!(quote_sh(""), "''");
    assert_eq!(quote_sh("hello"), "'hello'");
    assert_eq!(quote_sh("hello world"), "'hello world'");
    assert_eq!(quote_sh("foo'bar"), "'foo'\"'\"'bar'");
}

#[test]
fn render_cmd_env_cwd_args() {
    let mut env = EnvMap::new();
    env.insert("FOO".to_string(), "bar baz".to_string());
    let cmd = CommandSpec {
        program: "echo".to_string(),
        args: vec!["hi".to_string()],
        env,
        cwd: Some("/tmp".to_string()),
        stdin: Stdio::Inherit,
        stdout: Stdio::Inherit,
        stderr: Stdio::Inherit,
        flags: Default::default(),
    };
    let r = PosixRenderer::default();
    let got = r.render_cmd(&cmd).unwrap();
    assert_eq!(got, "cd '/tmp' && FOO='bar baz' echo 'hi'");
}

#[test]
fn render_cmd_redirections() {
    let cmd = CommandSpec {
        program: "/bin/cat".to_string(),
        args: vec!["file.txt".to_string()],
        env: EnvMap::new(),
        cwd: None,
        stdin: Stdio::Null,
        stdout: Stdio::File { path: "out.txt".into(), append: true },
        stderr: Stdio::File { path: "err.txt".into(), append: false },
        flags: Default::default(),
    };
    let r = PosixRenderer::default();
    let got = r.render_cmd(&cmd).unwrap();
    assert_eq!(got, "/bin/cat 'file.txt' < /dev/null >> 'out.txt' 2> 'err.txt'");
}

#[test]
fn render_pipe_plan_with_flags() {
    let mut p = PipelineSpec::new();
    let mut c1 = CommandSpec { program: "echo".into(), args: vec!["a".into()], ..Default::default() };
    c1.flags.timeout_ms = Some(500);
    let mut c2 = CommandSpec { program: "grep".into(), args: vec!["b".into()], ..Default::default() };
    c2.flags.retries = 2;
    c2.flags.background = true;
    p.push(c1);
    p.push(c2);
    let r = PosixRenderer::default();
    let got = r.render_pipe_plan(&p).unwrap();
    assert_eq!(got, "echo 'a'  # timeout=500ms | grep 'b'  # retries=2 &");
}

#[test]
fn win_render_cmd_env_cwd_args_redirs() {
    let mut env = EnvMap::new();
    env.insert("APPDATA".into(), "C:\\Data\\App".into());
    let cmd = CommandSpec {
        program: "C:\\Program Files\\MyApp\\app.exe".into(),
        args: vec!["hello world".into(), "a\"b".into()],
        env,
        cwd: Some("C:\\Work Dir".into()),
        stdin: Stdio::Null,
        stdout: Stdio::File { path: "out log.txt".into(), append: false },
        stderr: Stdio::File { path: "err.log".into(), append: true },
        flags: Default::default(),
    };
    let r = WinRenderer::default();
    let got = r.render_cmd(&cmd).unwrap();
    assert_eq!(got, "cd /d \"C:\\Work Dir\" && set \"APPDATA=C:\\Data\\App\" && \"C:\\Program Files\\MyApp\\app.exe\" \"hello world\" \"a\"\"b\" < NUL > \"out log.txt\" 2>> err.log");
}

#[test]
fn quote_sh_only_quote() {
    assert_eq!(quote_sh("'"), "''\"'\"''");
}

#[test]
fn quote_win_simple_and_quoted() {
    assert_eq!(quote_win("C:\\dir\\a.txt"), "C:\\dir\\a.txt");
    assert_eq!(quote_win(""), "\"\"");
    assert_eq!(quote_win("say \"hi\""), "\"say \"\"hi\"\"\"");
}

#[test]
fn empty_program_is_refused() {
    let cmd = CommandSpec { program: String::new(), args: vec!["x".into()], ..Default::default() };
    assert!(matches!(PosixRenderer::default().render_cmd(&cmd), Err(SyntaxError::RenderError(_))));
    assert!(matches!(WinRenderer::default().render_cmd(&cmd), Err(SyntaxError::RenderError(_))));
    let mut p = PipelineSpec::new();
    p.push(CommandSpec { program: "ls".into(), ..Default::default() });
    p.push(cmd);
    assert!(matches!(PosixRenderer::default().render_pipe(&p), Err(SyntaxError::RenderError(_))));
}

#[test]
fn posix_program_quoted_when_not_simple() {
    let cmd = CommandSpec { program: "my prog".into(), args: vec![String::new()], ..Default::default() };
    assert_eq!(PosixRenderer::default().render_cmd(&cmd).unwrap(), "'my prog' ''");
}

#[test]
fn env_keys_render_in_order() {
    let mut env = EnvMap::new();
    env.insert("ZED".into(), "1".into());
    env.insert("ALPHA".into(), "2".into());
    env.insert("MID".into(), "it's".into());
    env.insert("ZED".into(), "3".into());
    let cmd = CommandSpec { program: "run".into(), env, ..Default::default() };
    assert_eq!(
        PosixRenderer::default().render_cmd(&cmd).unwrap(),
        "ALPHA='2' MID='it'\"'\"'s' ZED='3' run"
    );
}

#[test]
fn win_env_value_quotes_doubled() {
    let mut env = EnvMap::new();
    env.insert("MSG".into(), "say \"hi\"".into());
    let cmd = CommandSpec { program: "app".into(), env, stderr: Stdio::Null, ..Default::default() };
    assert_eq!(WinRenderer::default().render_cmd(&cmd).unwrap(), "set \"MSG=say \"\"hi\"\"\" && app 2> NUL");
}

#[test]
fn pipeline_joins_and_background() {
    let mut p = PipelineSpec::new();
    assert!(p.is_empty());
    assert_eq!(PosixRenderer::default().render_pipe(&p).unwrap(), "");
    let mut a = CommandSpec { program: "ls".into(), stdout: Stdio::Pipe, ..Default::default() };
    a.flags.background = true;
    p.push(a);
    let mut b = CommandSpec { program: "wc".into(), args: vec!["-l".into()], ..Default::default() };
    b.flags.timeout_ms = Some(0);
    b.flags.retries = 255;
    p.push(b);
    assert!(!p.is_empty());
    assert_eq!(PosixRenderer::default().render_pipe(&p).unwrap(), "ls | wc '-l'");
    let planner = Planner { renderer: &PosixRenderer::default() };
    assert_eq!(planner.plan(&p).unwrap(), "ls | wc '-l'  # timeout=0ms, retries=255");
    let wp = Planner { renderer: &WinRenderer::default() };
    assert_eq!(wp.plan(&p).unwrap(), "ls | wc -l  # timeout=0ms, retries=255");
}

#[test]
fn stdin_file_and_null_outputs() {
    let cmd = CommandSpec {
        program: "sort".into(),
        stdin: Stdio::File { path: "in put".into(), append: true },
        stdout: Stdio::Null,
        stderr: Stdio::File { path: "e".into(), append: true },
        ..Default::default()
    };
    assert_eq!(
        PosixRenderer::default().render_cmd(&cmd).unwrap(),
        "sort < 'in put' > /dev/null 2>> 'e'"
    );
    assert_eq!(WinRenderer::default().render_cmd(&cmd).unwrap(), "sort < \"in put\" > NUL 2>> e");
}

#[test]
fn quote_examples() {
    assert_eq!(quote_sh(""), "''");
    assert_eq!(quote_sh("a'b"), "'a'\"'\"'b'");
}

#[test]
fn posix_words_are_quoted_losslessly() {
    let cmd = CommandSpec {
        program: "prog".into(),
        args: vec!["a b".into(), "it's".into(), String::new(), "$(rm -rf /)".into(), "''".into()],
        ..Default::default()
    };
    let line = PosixRenderer::default().render_cmd(&cmd).unwrap();
    assert_eq!(line, "prog 'a b' 'it'\"'\"'s' '' '$(rm -rf /)' ''\"'\"''\"'\"''");
}

#[test]
fn plan_with_largest_hints() {
    let mut c = CommandSpec { program: "job".into(), ..Default::default() };
    c.flags.timeout_ms = Some(u64::MAX);
    c.flags.retries = u8::MAX;
    assert_eq!(
        PosixRenderer::default().render_cmd_plan(&c).unwrap(),
        "job  # timeout=18446744073709551615ms, retries=255"
    );
    c.flags.timeout_ms = None;
    c.flags.retries = 0;
    assert_eq!(PosixRenderer::default().render_cmd_plan(&c).unwrap(), "job");
    c.flags.retries = 7;
    c.cwd = Some("C:\\A B".into());
    assert_eq!(WinRenderer::default().render_cmd_plan(&c).unwrap(), "cd /d \"C:\\A B\" && job  # retries=7");
}

#[test]
fn error_messages() {
    assert_eq!(SyntaxError::InvalidArgument("x".into()).message(), "Invalid argument: x");
    assert_eq!(SyntaxError::RenderError("program empty".into()).message(), "Render error: program empty");
    assert_eq!(SyntaxError::ResolveError("y".into()).message(), "Resolve error: y");
    assert_eq!(SyntaxError::ExecError(String::new()).message(), "Exec error: ");
}

#[test]
fn env_map_lookup_and_entries() {
    let mut env = EnvMap::new();
    assert_eq!(env.get("A"), None);
    env.insert("b".into(), "2".into());
    env.insert("a".into(), "1".into());
    env.insert("b".into(), "3".into());
    assert_eq!(env.get("b"), Some("3".to_string()));
    assert_eq!(env.entries().len(), 2);
    assert_eq!(env.entries()[0].0, "a");
    let copy = env.clone();
    assert_eq!(copy.get("a"), Some("1".to_string()));
}
