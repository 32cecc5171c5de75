use microci::dynconf::eval::{EvalError, YamlFiles};
use microci::dynconf::state::{Builtin, State, StateError};
use microci::dynconf::util::{deep_eval, DynPath, DynString, DynValue, OneOrMany};
use microci::dynconf::value::{Value, ValueError, ValueType};
use microci::dynconf::{eval_expr, eval_string, parse_expr, parse_string, DynError, InputError};

/// Files served from memory, recording which paths were asked for.
struct MemFiles {
    files: Vec<(String, Value)>,
    asked: Vec<String>,
}

impl MemFiles {
    fn new(files: Vec<(String, Value)>) -> MemFiles {
        MemFiles { files, asked: Vec::new() }
    }

    fn none() -> MemFiles {
        MemFiles::new(Vec::new())
    }
}

impl YamlFiles for MemFiles {
    fn load_yaml(&mut self, path: &str) -> Result<Value, EvalError> {
        self.asked.push(path.to_string());
        for (p, v) in self.files.iter() {
            if p == path {
                return Ok(v.deep_clone());
            }
        }
        Err(EvalError::Load(path.to_string()))
    }
}

fn show(v: &Value) -> String {
    format!("{:?}", v)
}

fn text(t: &str) -> Value {
    Value::String(t.to_string())
}

fn dict(entries: Vec<(&str, Value)>) -> Value {
    Value::Dict(entries.into_iter().map(|(k, v)| (k.to_string(), v)).collect())
}

fn state_with_global(global: Value) -> State {
    let mut state = State::initialize();
    state.set_global(global);
    state
}

#[test]
fn eval_global_path() {
    let mut state = state_with_global(dict(vec![("a", dict(vec![("b", Value::Integer(7))]))]));
    let v = eval_expr(&mut state, "${a.b}", &mut MemFiles::none()).unwrap();
    assert_eq!(show(&v), show(&Value::Integer(7)));
}

#[test]
fn eval_missing_key_is_an_error() {
    let mut state = state_with_global(dict(vec![("a", Value::Integer(1))]));
    let r = eval_expr(&mut state, "${b}", &mut MemFiles::none());
    assert!(matches!(r, Err(DynError::Eval(EvalError::NoKey(k))) if k == "b"));
}

#[test]
fn eval_path_into_non_object() {
    let mut state = state_with_global(dict(vec![("a", Value::Integer(1))]));
    let r = eval_expr(&mut state, "${a.b}", &mut MemFiles::none());
    assert!(matches!(r, Err(DynError::Eval(EvalError::NotAnObject(ValueType::Integer)))));
}

#[test]
fn eval_without_global() {
    let mut state = State::initialize();
    let r = eval_expr(&mut state, "${a}", &mut MemFiles::none());
    assert!(matches!(r, Err(DynError::Eval(EvalError::GlobalNotSet))));
}

#[test]
fn eval_quoted_string_is_unescaped() {
    // The double-quoted form goes through shell unescaping.
    let mut state = State::initialize();
    let v = eval_expr(&mut state, r#"${"a\nb"}"#, &mut MemFiles::none()).unwrap();
    assert_eq!(show(&v), show(&text("a\nb")));
    let v = eval_expr(&mut state, r#"${"say \"hi\""}"#, &mut MemFiles::none()).unwrap();
    assert_eq!(show(&v), show(&text("say \"hi\"")));
}

#[test]
fn eval_single_quoted_string_is_kept() {
    let mut state = State::initialize();
    let v = eval_expr(&mut state, r#"${'a\nb'}"#, &mut MemFiles::none()).unwrap();
    assert_eq!(show(&v), show(&text("a\\nb")));
}

#[test]
fn eval_literals() {
    let mut state = State::initialize();
    let files = &mut MemFiles::none();
    assert_eq!(show(&eval_expr(&mut state, "${true}", files).unwrap()), show(&Value::Boolean(true)));
    assert_eq!(show(&eval_expr(&mut state, "${- 2}", files).unwrap()), show(&Value::Integer(-2)));
    assert_eq!(show(&eval_expr(&mut state, "${null}", files).unwrap()), show(&Value::Null));
}

#[test]
fn eval_list_and_dict_functions() {
    let mut state = State::initialize();
    let files = &mut MemFiles::none();
    let v = eval_expr(&mut state, "${list(1, 2, 3)}", files).unwrap();
    assert_eq!(
        show(&v),
        show(&Value::Array(vec![Value::Integer(1), Value::Integer(2), Value::Integer(3)]))
    );
    // Pairs are taken from the last to the first.
    let v = eval_expr(&mut state, r#"${dict('a', 1, 'b', true)}"#, files).unwrap();
    assert_eq!(show(&v), show(&dict(vec![("b", Value::Boolean(true)), ("a", Value::Integer(1))])));
    let r = eval_expr(&mut state, r#"${dict('a')}"#, files);
    assert!(matches!(r, Err(DynError::Eval(EvalError::OddArguments))));
}

#[test]
fn eval_dict_with_repeated_key_keeps_first_pair() {
    // The first pair is taken last, so its value is the one that stays.
    let mut state = State::initialize();
    let v = eval_expr(&mut state, r#"${dict('a', 1, 'a', 2)}"#, &mut MemFiles::none()).unwrap();
    assert_eq!(show(&v), show(&dict(vec![("a", Value::Integer(1))])));
}

#[test]
fn eval_unknown_function() {
    let mut state = State::initialize();
    let r = eval_expr(&mut state, "${nope(1)}", &mut MemFiles::none());
    assert!(matches!(r, Err(DynError::Eval(EvalError::NoSuchFunction(n))) if n == "nope"));
}

#[test]
fn eval_fs_paths() {
    let mut state = State::initialize();
    let files = &mut MemFiles::none();
    let r = eval_expr(&mut state, "${./a/b}", files);
    assert!(matches!(r, Err(DynError::Eval(EvalError::CurrentDirNotSet))));
    let r = eval_expr(&mut state, "${~/a}", files);
    assert!(matches!(r, Err(DynError::Eval(EvalError::HomeNotSet))));
    state.set_current_dir("/srv/conf".to_string());
    state.set_home("/home/me".to_string());
    let v = eval_expr(&mut state, "${./a/b}", files).unwrap();
    assert_eq!(show(&v), show(&text("/srv/conf/a/b")));
    let v = eval_expr(&mut state, "${~/.config}", files).unwrap();
    assert_eq!(show(&v), show(&text("/home/me/.config")));
    // The segments of a path written from the root are joined as they are.
    let v = eval_expr(&mut state, "${/etc/x}", files).unwrap();
    assert_eq!(show(&v), show(&text("etc/x")));
}

#[test]
fn eval_load_reads_the_file_and_moves_into_its_directory() {
    let mut state = State::initialize();
    state.set_current_dir("/conf".to_string());
    let mut files = MemFiles::new(vec![("/conf/sub/b.yaml".to_string(), dict(vec![("k", text("v"))]))]);
    let v = eval_expr(&mut state, "${${load(./sub/b.yaml)}.k}", &mut files).unwrap();
    assert_eq!(show(&v), show(&text("v")));
    assert_eq!(files.asked, vec!["/conf/sub/b.yaml".to_string()]);
    // The directory of the loaded file becomes the current one.
    assert_eq!(state.get_current_dir(), Some("/conf/sub".to_string()));
}

#[test]
fn eval_load_of_a_path_without_directory() {
    let mut state = state_with_global(dict(vec![("p", text(""))]));
    let r = eval_expr(&mut state, "${load(p)}", &mut MemFiles::none());
    assert!(matches!(r, Err(DynError::Eval(EvalError::NoParent(p))) if p.is_empty()));
    let r = eval_expr(&mut state, "${load(1, 2)}", &mut MemFiles::none());
    assert!(matches!(r, Err(DynError::Eval(EvalError::LoadArguments))));
}

#[test]
fn eval_load_failure_is_handed_on() {
    let mut state = State::initialize();
    let r = eval_expr(&mut state, "${load('/x/missing.yaml')}", &mut MemFiles::none());
    assert!(matches!(r, Err(DynError::Eval(EvalError::Load(p))) if p == "/x/missing.yaml"));
}

#[test]
fn eval_string_format() {
    let mut state = state_with_global(dict(vec![
        ("name", text("web")),
        ("n", Value::Integer(3)),
        ("on", Value::Boolean(false)),
    ]));
    let files = &mut MemFiles::none();
    assert_eq!(eval_string(&mut state, "svc-${name}-${n}-${on}", files).unwrap(), "svc-web-3-false");
    assert_eq!(eval_string(&mut state, "cost: $$5", files).unwrap(), "cost: $$5");
    assert_eq!(eval_string(&mut state, "a $${name}", files).unwrap(), "a ${name}");
    assert_eq!(eval_string(&mut state, "${null}", files).unwrap(), "null");
}

#[test]
fn eval_string_of_a_list_is_an_error() {
    let mut state = State::initialize();
    let r = eval_string(&mut state, "x${list(1)}", &mut MemFiles::none());
    assert!(matches!(r, Err(DynError::Eval(EvalError::Value(ValueError::ArrayToString)))));
}

#[test]
fn eval_expr_with_trailing_text() {
    let mut state = State::initialize();
    let r = eval_expr(&mut state, "${true} tail", &mut MemFiles::none());
    assert!(matches!(r, Err(DynError::Input(InputError::Trailing(t))) if t == " tail"));
}

#[test]
fn parse_expr_and_string_errors() {
    assert!(matches!(parse_expr("plain"), Err(InputError::Failed(_))));
    assert!(parse_expr("${a}").is_ok());
    assert!(parse_string("plain text").is_ok());
    assert!(matches!(parse_string("a ${"), Err(_)));
}

#[test]
fn unicode_names_in_paths() {
    // After its first character, a key may hold any letters or digits.
    let mut state = state_with_global(dict(vec![("aключ1", Value::Integer(5))]));
    let v = eval_expr(&mut state, "${aключ1}", &mut MemFiles::none()).unwrap();
    assert_eq!(show(&v), show(&Value::Integer(5)));
}

#[test]
fn state_scopes_see_outer_values() {
    let mut state = state_with_global(text("outer"));
    state.set_current_dir("/a".to_string());
    let mut inner = state.scope();
    assert_eq!(show(inner.get_global().unwrap()), show(&text("outer")));
    assert_eq!(inner.get_current_dir(), Some("/a".to_string()));
    inner.set_global(text("inner"));
    assert_eq!(show(inner.get_global().unwrap()), show(&text("inner")));
    assert_eq!(show(state.get_global().unwrap()), show(&text("outer")));
}

#[test]
fn state_functions() {
    let mut state = State::initialize();
    assert_eq!(state.get_function("list"), Some(Builtin::List));
    assert_eq!(state.get_function("load"), Some(Builtin::LoadYaml));
    assert_eq!(state.get_function("other"), None);
    assert!(matches!(state.register_function("list", Builtin::Dict), Err(StateError::AlreadyRegistered(_))));
    let mut inner = state.scope();
    assert!(inner.register_function("mk", Builtin::Dict).is_ok());
    assert_eq!(inner.get_function("mk"), Some(Builtin::Dict));
    assert_eq!(inner.get_function("dict"), Some(Builtin::Dict));
}

#[test]
fn mutate_global_starts_from_outer_value() {
    let state = state_with_global(dict(vec![("a", Value::Integer(1))]));
    let mut inner = state.scope();
    let r: Result<(), String> = inner.mutate_global(|v| match v {
        Value::Dict(mut es) => {
            es.push(("_id".to_string(), text("x")));
            Ok(Value::Dict(es))
        }
        other => Ok(other),
    });
    assert!(r.is_ok());
    assert_eq!(
        show(inner.get_global().unwrap()),
        show(&dict(vec![("a", Value::Integer(1)), ("_id", text("x"))]))
    );
    assert_eq!(show(state.get_global().unwrap()), show(&dict(vec![("a", Value::Integer(1))])));
}

#[test]
fn mutate_global_from_nothing_and_failing() {
    let mut state = State::initialize();
    let r: Result<(), String> = state.mutate_global(|v| {
        assert_eq!(format!("{:?}", v), "Null");
        Ok(Value::Integer(4))
    });
    assert!(r.is_ok());
    assert_eq!(show(state.get_global().unwrap()), show(&Value::Integer(4)));
    let r: Result<(), String> = state.mutate_global(|_| Err("no".to_string()));
    assert_eq!(r, Err("no".to_string()));
    assert!(state.get_global().is_none());
}

#[test]
fn deep_eval_evaluates_texts_in_place() {
    let state = state_with_global(dict(vec![("x", Value::Integer(2))]));
    let value = dict(vec![
        ("expr", text("${x}")),
        ("fmt", text("n=${x}")),
        ("plain", text("just text")),
        ("list", Value::Array(vec![text("${x}"), Value::Boolean(true)])),
    ]);
    let out = deep_eval(&value, &state, &mut MemFiles::none()).unwrap();
    assert_eq!(
        show(&out),
        show(&dict(vec![
            ("expr", Value::Integer(2)),
            ("fmt", text("n=2")),
            ("plain", text("just text")),
            ("list", Value::Array(vec![Value::Integer(2), Value::Boolean(true)])),
        ]))
    );
}

#[test]
fn deep_eval_reports_the_first_failure() {
    let state = State::initialize();
    let value = Value::Array(vec![text("ok"), text("${a}"), text("${nope()}")]);
    let r = deep_eval(&value, &state, &mut MemFiles::none());
    assert!(matches!(r, Err(EvalError::GlobalNotSet)));
}

#[test]
fn dyn_string_and_path_load_in_a_scope() {
    let mut state = state_with_global(dict(vec![("who", text("me"))]));
    let s = DynString { value: "hi ${who}".to_string() };
    assert_eq!(s.load(&mut state, &mut MemFiles::none()).unwrap(), "hi me");
    let p = DynPath { value: "/data/${who}".to_string() };
    assert_eq!(p.load(&mut state, &mut MemFiles::none()).unwrap(), "/data/me");
    let bad = DynString { value: "${".to_string() };
    assert!(matches!(bad.load(&mut state, &mut MemFiles::none()), Err(DynError::Input(_))));
}

#[test]
fn one_or_many_loads_every_item() {
    let mut state = state_with_global(dict(vec![("n", Value::Integer(1))]));
    let one = OneOrMany::One(DynString { value: "a${n}".to_string() });
    assert_eq!(one.load(&mut state, &mut MemFiles::none()).unwrap(), vec!["a1".to_string()]);
    let many = OneOrMany::Many(vec![
        DynString { value: "x".to_string() },
        DynString { value: "y${n}".to_string() },
    ]);
    assert_eq!(
        many.load(&mut state, &mut MemFiles::none()).unwrap(),
        vec!["x".to_string(), "y1".to_string()]
    );
    let opt: Option<bool> = None;
    assert_eq!(opt.load(&mut state, &mut MemFiles::none()).unwrap(), None);
    assert_eq!(Some(true).load(&mut state, &mut MemFiles::none()).unwrap(), Some(true));
}

#[test]
fn value_texts_and_types() {
    assert_eq!(Value::Integer(-5).try_to_string(), Ok("-5".to_string()));
    assert_eq!(Value::Boolean(true).try_to_string(), Ok("true".to_string()));
    assert_eq!(Value::Null.try_to_string(), Ok("null".to_string()));
    assert_eq!(Value::Array(vec![]).try_to_string(), Err(ValueError::ArrayToString));
    assert_eq!(Value::Dict(vec![]).try_to_string(), Err(ValueError::DictToString));
    assert_eq!(Value::Dict(vec![]).typename().name(), "object");
    assert_eq!(text("x").typename().name(), "string");
}

#[test]
fn table_load_sets_id_per_entry_and_restores_it() {
    let mut state = state_with_global(dict(vec![("_id", text("outer")), ("n", Value::Integer(1))]));
    let table = vec![
        ("a".to_string(), DynString { value: "${_id}-${n}".to_string() }),
        ("b".to_string(), DynString { value: "${_id}".to_string() }),
    ];
    let out = table.load(&mut state, &mut MemFiles::none()).unwrap();
    assert_eq!(out, vec![("a".to_string(), "a-1".to_string()), ("b".to_string(), "b".to_string())]);
    // The `_id` seen before is set back.
    let v = eval_expr(&mut state, "${_id}", &mut MemFiles::none()).unwrap();
    assert_eq!(show(&v), show(&text("outer")));
}

#[test]
fn table_load_without_global_makes_one() {
    let mut state = State::initialize();
    let table = vec![("k".to_string(), DynString { value: "${_id}".to_string() })];
    let out = table.load(&mut state, &mut MemFiles::none()).unwrap();
    assert_eq!(out, vec![("k".to_string(), "k".to_string())]);
    assert_eq!(show(state.get_global().unwrap()), show(&dict(vec![("_id", text("k"))])));
}

#[test]
fn deep_eval_of_a_value_without_text_gives_it_back() {
    let state = State::initialize();
    let value = dict(vec![
        ("n", Value::Integer(3)),
        ("list", Value::Array(vec![Value::Boolean(false), Value::Null])),
    ]);
    let out = deep_eval(&value, &state, &mut MemFiles::none()).unwrap();
    assert_eq!(show(&out), show(&value));
}

#[test]
fn deep_eval_reads_a_loaded_file_by_path() {
    let state = State::initialize();
    let mut files = MemFiles::new(vec![("/c/a.yaml".to_string(), dict(vec![("k", text("v"))]))]);
    let out = deep_eval(&text("${${load('/c/a.yaml')}.k}"), &state, &mut files).unwrap();
    assert_eq!(show(&out), show(&text("v")));
    assert_eq!(files.asked, vec!["/c/a.yaml".to_string()]);
    let r = deep_eval(&text("${${load('/c/a.yaml')}.nope}"), &state, &mut files);
    assert!(matches!(r, Err(EvalError::NoKey(k)) if k == "nope"));
    let r = deep_eval(&text("${${load('/c/missing.yaml')}.k}"), &state, &mut files);
    assert!(matches!(r, Err(EvalError::Load(p)) if p == "/c/missing.yaml"));
}
