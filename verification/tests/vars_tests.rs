use microci::vars::{parse_path_simple, substitute_vars, Path, SubstitutionError, Value, VarsError};

fn s(text: &str) -> String {
    String::from(text)
}

fn object_of_strings(pairs: &[(&str, &str)]) -> Value {
    let entries: Vec<(String, Value)> = pairs
        .iter()
        .map(|(k, v)| (s(k), Value::String(s(v))))
        .collect();
    entries.into()
}

fn sample_vars() -> Value {
    let values: Vec<(String, Value)> = vec![
        (s("a"), Value::String(s("123"))),
        (s("b"), vec![s("ab"), s("o"), s("ba")].into()),
        (s("c"), object_of_strings(&[("a", "lul")])),
        (s("keys"), vec![s("a"), s("b"), s("c"), s("0")].into()),
    ];
    values.into()
}

#[test]
fn test_vars_from_string() {
    let values = String::from("123");
    let vars: Value = values.into();

    let path = Path::default();

    assert_eq!(vars.get_string(path).unwrap(), "123");
}

#[test]
fn test_vars_from_vec() {
    let values = vec![s("123"), s("aboba"), s("456")];
    let vars: Value = values.into();

    let mut path = Path::default();
    path.index(1);

    assert_eq!(vars.get_string(path).unwrap(), "aboba");
}

#[test]
fn test_vars_from_object() {
    let vars = object_of_strings(&[("a", "123"), ("bb", "aboba"), ("ccc", "456")]);

    let mut path = Path::default();
    path.key(s("bb"));

    assert_eq!(vars.get_string(path).unwrap(), "aboba");
}

#[test]
fn test_vars_from_complex() {
    let values: Vec<(String, Value)> = vec![
        (s("a"), Value::String(s("123"))),
        (s("b"), vec![s("ab"), s("o"), s("ba")].into()),
        (s("c"), object_of_strings(&[("a", "lul")])),
    ];
    let vars: Value = values.into();

    let mut path = Path::default();
    path.key(s("a"));
    assert_eq!(vars.get_string(path).unwrap(), "123");

    let mut path = Path::default();
    path.key(s("b"));
    path.index(1);
    assert_eq!(vars.get_string(path).unwrap(), "o");

    let mut path = Path::default();
    path.key(s("c"));
    path.key(s("a"));
    assert_eq!(vars.get_string(path).unwrap(), "lul");
}

#[test]
fn test_parse_no_vars() {
    let vars = Value::Null;

    let content = "aboba_amogis";
    assert_eq!(substitute_vars(&vars, content).unwrap(), "aboba_amogis");

    let content = "aboba_amogis$$${";
    assert_eq!(substitute_vars(&vars, content).unwrap(), "aboba_amogis$${");

    let content = "aboba_amogis$$$";
    assert_eq!(substitute_vars(&vars, content).unwrap(), "aboba_amogis$$$");

    let content = "aboba_amogis$${}";
    assert_eq!(substitute_vars(&vars, content).unwrap(), "aboba_amogis${}");

    let content = "aboba_amogis$${}$$ $${}";
    assert_eq!(
        substitute_vars(&vars, content).unwrap(),
        "aboba_amogis${}$$ ${}"
    );
}

#[test]
fn test_parse_vars() {
    let vars = sample_vars();

    let content = "this ${a}";
    assert_eq!(substitute_vars(&vars, content).unwrap(), "this 123");

    let content = "this ${b[1]}";
    assert_eq!(substitute_vars(&vars, content).unwrap(), "this o");

    let content = "this ${c.a}";
    assert_eq!(substitute_vars(&vars, content).unwrap(), "this lul");

    let content = "this ${a} - ${b[0]} + ${c.a}";
    assert_eq!(
        substitute_vars(&vars, content).unwrap(),
        "this 123 - ab + lul"
    );

    let content = "this ${${keys[0]}}";
    assert_eq!(substitute_vars(&vars, content).unwrap(), "this 123");

    let content = "this ${c.${keys[0]}}";
    assert_eq!(substitute_vars(&vars, content).unwrap(), "this lul");

    let content = "this ${${keys[2]}.${keys[0]}}";
    assert_eq!(substitute_vars(&vars, content).unwrap(), "this lul");

    let content = "this ${b[${keys[3]}]}";
    assert_eq!(substitute_vars(&vars, content).unwrap(), "this ab");
}

#[test]
fn test_assign() {
    let mut vars = Value::default();
    vars.assign_path(parse_path_simple("a.b").unwrap(), s("123").into())
        .unwrap();
    vars.assign_path(parse_path_simple("a.g").unwrap(), s("aboba").into())
        .unwrap();
    vars.assign_path(parse_path_simple("b[5]").unwrap(), s("lol").into())
        .unwrap();
    vars.assign_path(parse_path_simple("c").unwrap(), s("booba").into())
        .unwrap();

    let content = "this ${a.b} ${a.g} ${b[5]} ${c}";
    assert_eq!(
        substitute_vars(&vars, content).unwrap(),
        "this 123 aboba lol booba"
    );
}

#[test]
fn test_assign_strings() {
    let vars = Value::from_list_strings(&[
        ("a.b", "123"),
        ("a.g", "aboba"),
        ("b[5]", "lol"),
        ("c", "booba"),
    ])
    .unwrap();

    let content = "this ${a.b} ${a.g} ${b[5]} ${c}";
    assert_eq!(
        substitute_vars(&vars, content).unwrap(),
        "this 123 aboba lol booba"
    );
}

#[test]
fn get_mut_writes_in_place() {
    let mut vars = sample_vars();
    let mut path = Path::default();
    path.key(s("c"));
    path.key(s("a"));
    *vars.get_mut(path.clone()).unwrap() = Value::String(s("changed"));
    assert_eq!(vars.get_string(path).unwrap(), "changed");
    assert_eq!(vars.eval("${c.a} ${b[1]}").unwrap(), "changed o");

    let mut item = Path::default();
    item.key(s("b"));
    item.index(2);
    *vars.get_mut(item).unwrap() = Value::Integer(7);
    assert_eq!(vars.eval("${b[2]}").unwrap(), "7");
}

#[test]
fn get_mut_errors_leave_value_alone() {
    let mut vars = sample_vars();
    let mut missing = Path::default();
    missing.key(s("zzz"));
    assert!(vars.get_mut(missing).is_err());
    let mut out_of_bounds = Path::default();
    out_of_bounds.key(s("b"));
    out_of_bounds.index(10);
    assert!(vars.get_mut(out_of_bounds).is_err());
    let mut not_list = Path::default();
    not_list.key(s("a"));
    not_list.index(0);
    assert!(vars.get_mut(not_list).is_err());
    assert_eq!(vars.eval("${a} ${b[0]}").unwrap(), "123 ab");
}

#[test]
fn plain_text_is_its_own_substitution() {
    let vars = sample_vars();
    assert_eq!(substitute_vars(&vars, "no variables here {}").unwrap(), "no variables here {}");
}

#[test]
fn assign_reports_malformed_paths_and_keeps_the_value() {
    let mut v = sample_vars();
    assert!(matches!(v.assign("b[x]", Value::String(s("1"))), Err(SubstitutionError::ParseIndexError(_))));
    assert!(matches!(v.assign("b[1", Value::String(s("1"))), Err(SubstitutionError::MissingClosingBracket)));
    let mut p = Path::default();
    p.key(s("b"));
    p.index(1);
    assert_eq!(v.get_string(p).unwrap(), "o");
    assert!(v.assign("b[1]", Value::String(s("x"))).is_ok());
    let mut p = Path::default();
    p.key(s("b"));
    p.index(1);
    assert_eq!(v.get_string(p).unwrap(), "x");
}

#[test]
fn from_list_assigns_in_turn_into_nothing() {
    assert!(matches!(Value::from_list(&[]), Ok(Value::Null)));
    let v = Value::from_list(&[("a", Value::String(s("1"))), ("a", Value::String(s("2")))]).unwrap();
    let mut p = Path::default();
    p.key(s("a"));
    assert_eq!(v.get_string(p).unwrap(), "2");
    assert!(matches!(
        Value::from_list(&[("a", Value::String(s("1"))), ("a.b", Value::String(s("2")))]),
        Err(SubstitutionError::VarsError(VarsError::NotAnObject { key })) if key == "b"
    ));
}

#[test]
fn dollar_runs_before_plain_text() {
    let vars = sample_vars();
    assert_eq!(substitute_vars(&vars, "$$x").unwrap(), "$$x");
    assert_eq!(substitute_vars(&vars, "$$${a}").unwrap(), "$${a}");
    assert_eq!(substitute_vars(&vars, "$$$").unwrap(), "$$$");
}
