use dog3::builtin::{iter, logic, math, standard, strings};
use dog3::parser::grammar::{Block, FormalParameter, Function};
use dog3::runtime::functions::FunctionLibrary;
use dog3::runtime::output::Output;
use dog3::runtime::ExecutionError;

type Library = FunctionLibrary<u8>;

fn args(values: &[(&str, i64)]) -> Vec<Output> {
    values.iter().map(|(text, code)| Output::new(text.to_string(), *code)).collect()
}

fn texts(values: &[&str]) -> Vec<Output> {
    values.iter().map(|text| Output::new(text.to_string(), 0)).collect()
}

fn shown(res: Result<Output, ExecutionError>) -> Result<(String, i64), String> {
    match res {
        Ok(out) => Ok((out.value().to_string(), out.code())),
        Err(err) => Err(err.to_string()),
    }
}

fn ok(text: &str, code: i64) -> Result<(String, i64), String> {
    Ok((text.to_string(), code))
}

fn internal() -> Result<(String, i64), String> {
    Err("error: Internal runtime error".to_string())
}

#[test]
fn logic_constants() {
    let lib = Library::new();
    assert_eq!(shown(logic::truthy(&lib, &texts(&["x"]))), ok("", 0));
    assert_eq!(shown(logic::falsy(&lib, &texts(&[]))), ok("", 1));
}

#[test]
fn logic_like() {
    let lib = Library::new();
    assert_eq!(shown(logic::like(&lib, &args(&[("a", 0), ("a", 5)]))), ok("", 0));
    assert_eq!(shown(logic::like(&lib, &texts(&["a", "b"]))), ok("", 1));
    assert_eq!(shown(logic::like(&lib, &texts(&["a"]))), internal());
    assert_eq!(shown(logic::like(&lib, &texts(&["a", "a", "a"]))), internal());
}

#[test]
fn logic_connectives() {
    let lib = Library::new();
    let t = ("", 0);
    let f = ("", 2);
    assert_eq!(shown(logic::and(&lib, &args(&[t, t]))), ok("", 0));
    assert_eq!(shown(logic::and(&lib, &args(&[t, f]))), ok("", 1));
    assert_eq!(shown(logic::and(&lib, &args(&[f, t]))), ok("", 1));
    assert_eq!(shown(logic::or(&lib, &args(&[f, t]))), ok("", 0));
    assert_eq!(shown(logic::or(&lib, &args(&[f, f]))), ok("", 1));
    assert_eq!(shown(logic::not(&lib, &args(&[f]))), ok("", 0));
    assert_eq!(shown(logic::not(&lib, &args(&[t]))), ok("", 1));
    assert_eq!(shown(logic::and(&lib, &args(&[t]))), internal());
    assert_eq!(shown(logic::or(&lib, &args(&[]))), internal());
    assert_eq!(shown(logic::not(&lib, &args(&[t, t]))), internal());
}

#[test]
fn put_and_pln_join() {
    let lib = Library::new();
    assert_eq!(shown(standard::put(&lib, &args(&[("a", 1), ("b", 3)]))), ok("a b", 3));
    assert_eq!(shown(standard::put(&lib, &args(&[]))), ok("", 0));
    assert_eq!(shown(standard::pln(&lib, &args(&[("a", 1), ("b", 3)]))), ok("a b\n", 3));
    assert_eq!(shown(standard::pln(&lib, &args(&[]))), ok("\n", 0));
}

#[test]
fn status_reads_and_sets() {
    let lib = Library::new();
    assert_eq!(shown(standard::status(&lib, &args(&[("a", 0)]))), ok("0", 0));
    assert_eq!(shown(standard::status(&lib, &args(&[("a", 404)]))), ok("404", 404));
    assert_eq!(shown(standard::status(&lib, &args(&[("a", -12)]))), ok("-12", -12));
    assert_eq!(
        shown(standard::status(&lib, &args(&[("a", i64::MIN)]))),
        ok("-9223372036854775808", i64::MIN)
    );
    assert_eq!(shown(standard::status(&lib, &args(&[("a", 0), ("7", 0)]))), ok("a", 7));
    assert_eq!(shown(standard::status(&lib, &args(&[("a", 0), ("x", 0)]))), ok("a", 1));
    assert_eq!(shown(standard::status(&lib, &args(&[]))), internal());
    assert_eq!(shown(standard::status(&lib, &texts(&["a", "1", "2"]))), internal());
}

#[test]
fn src_lists_sources_and_signatures() {
    let mut lib = Library::new();
    lib.add_builtin("f", vec![FormalParameter::new("a"), FormalParameter::new_vector("rest")], 1);
    lib.add_builtin("g", vec![], 2);
    assert!(lib
        .add_script(Function {
            name: "h".to_string(),
            args: vec![],
            block: Block { executions: vec![] },
            script: "fn h() { put(1) }".to_string(),
        })
        .is_ok());
    assert_eq!(shown(standard::src(&lib, &texts(&["f"]))), ok("fn f(a, %rest) {\n    // built-in\n}", 0));
    assert_eq!(shown(standard::src(&lib, &texts(&["h"]))), ok("fn h() { put(1) }", 0));
    assert_eq!(shown(standard::src(&lib, &texts(&["nope"]))), ok("", 0));
    assert_eq!(shown(standard::src(&lib, &texts(&[]))), internal());
    assert_eq!(
        lib.get_scripts(true, true, None),
        "fn f(a, %rest) {\n    // built-in\n}\nfn g() {\n    // built-in\n}\nfn h() { put(1) }"
    );
    assert_eq!(lib.get_scripts(false, true, None), "fn h() { put(1) }");
    assert_eq!(lib.get_scripts(true, false, Some("g")), "fn g() {\n    // built-in\n}");
    assert_eq!(lib.get_scripts(false, false, None), "");
    assert_eq!(lib.get_list("f").unwrap()[0].signature("f"), "fn f(a, %rest)");
}

#[test]
fn range_lists_numbers() {
    let lib = Library::new();
    assert_eq!(shown(iter::range(&lib, &texts(&["4"]))), ok("0 1 2 3", 0));
    assert_eq!(shown(iter::range(&lib, &texts(&["2", "5"]))), ok("2 3 4", 0));
    assert_eq!(shown(iter::range(&lib, &texts(&["-2", "5", "3"]))), ok("-2 1 4", 0));
    assert_eq!(shown(iter::range(&lib, &texts(&["0", "5", "2", ","]))), ok("0,2,4", 0));
    assert_eq!(shown(iter::range(&lib, &texts(&["5", "2"]))), ok("", 0));
    assert_eq!(shown(iter::range(&lib, &texts(&["0"]))), ok("", 0));
    assert_eq!(shown(iter::range(&lib, &texts(&["x"]))), ok("", 1));
    assert_eq!(shown(iter::range(&lib, &texts(&["0", "5", "-1"]))), ok("", 1));
    assert_eq!(shown(iter::range(&lib, &texts(&["0", "5", "0"]))), ok("", 1));
    assert_eq!(
        shown(iter::range(&lib, &texts(&["9223372036854775806", "9223372036854775807", "5"]))),
        ok("9223372036854775806", 0)
    );
    assert_eq!(shown(iter::range(&lib, &texts(&[]))), internal());
    assert_eq!(shown(iter::range(&lib, &texts(&["1", "2", "3", "4", "5"]))), internal());
}

#[test]
fn len_counts_pieces() {
    let lib = Library::new();
    assert_eq!(shown(iter::len(&lib, &texts(&["a b  c"]))), ok("3", 0));
    assert_eq!(shown(iter::len(&lib, &texts(&[""]))), ok("0", 0));
    assert_eq!(shown(iter::len(&lib, &texts(&["a,b,,c", ","]))), ok("4", 0));
    assert_eq!(shown(iter::len(&lib, &texts(&["héllo", ""]))), ok("5", 0));
    assert_eq!(shown(iter::len(&lib, &texts(&[]))), internal());
}

#[test]
fn first_and_last_take_pieces() {
    let lib = Library::new();
    assert_eq!(shown(iter::first(&lib, &texts(&["a b c", "2"]))), ok("a b", 0));
    assert_eq!(shown(iter::last(&lib, &texts(&["a b c", "2"]))), ok("b c", 0));
    assert_eq!(shown(iter::first(&lib, &texts(&["a b c", "0"]))), ok("", 0));
    assert_eq!(shown(iter::last(&lib, &texts(&["a b c", "3"]))), ok("a b c", 0));
    assert_eq!(shown(iter::first(&lib, &texts(&["a b c", "4"]))), ok("", 1));
    assert_eq!(shown(iter::last(&lib, &texts(&["a b c", "-1"]))), ok("", 1));
    assert_eq!(shown(iter::first(&lib, &texts(&["a b c", "x"]))), ok("", 1));
    assert_eq!(shown(iter::first(&lib, &texts(&["a,b,c", "2", ","]))), ok("a,b", 0));
    assert_eq!(shown(iter::last(&lib, &texts(&["a,b,c", "1", ","]))), ok("c", 0));
    assert_eq!(shown(iter::first(&lib, &texts(&["abc", "2", ""]))), ok("ab", 0));
    assert_eq!(shown(iter::first(&lib, &texts(&["a"]))), internal());
    assert_eq!(shown(iter::last(&lib, &texts(&["a", "1", ",", "x"]))), internal());
}

#[test]
fn append_chains_lists() {
    let lib = Library::new();
    assert_eq!(shown(iter::append(&lib, &texts(&["a  b", " c"]))), ok("a b c", 0));
    assert_eq!(shown(iter::append(&lib, &texts(&["a,b", "c", ","]))), ok("a,b,c", 0));
    assert_eq!(shown(iter::append(&lib, &texts(&["", ""]))), ok("", 0));
    assert_eq!(shown(iter::append(&lib, &texts(&["a"]))), internal());
}

#[test]
fn case_functions() {
    let lib = Library::new();
    assert_eq!(shown(strings::upper(&lib, &args(&[("straße", 0), ("b", 2)]))), ok("STRASSE B", 2));
    assert_eq!(shown(strings::lower(&lib, &args(&[("ÀB", 0), ("C", 2)]))), ok("àb c", 2));
}

#[test]
fn replace_replaces_all() {
    let lib = Library::new();
    assert_eq!(shown(strings::replace(&lib, &args(&[("a-b-c", 4), ("-", 0), ("+", 0)]))), ok("a+b+c", 4));
    assert_eq!(shown(strings::replace(&lib, &texts(&["aaa", "aa", "b"]))), ok("ba", 0));
    assert_eq!(shown(strings::replace(&lib, &texts(&["abc", "x", "y"]))), ok("abc", 0));
    assert_eq!(shown(strings::replace(&lib, &texts(&["ab", "", "-"]))), ok("-a-b-", 0));
    assert_eq!(shown(strings::replace(&lib, &texts(&["", "", "-"]))), ok("-", 0));
    assert_eq!(shown(strings::replace(&lib, &texts(&["ab", "b", ""]))), ok("a", 0));
    assert_eq!("ab".replace("", "-"), "-a-b-");
    assert_eq!(shown(strings::replace(&lib, &texts(&["a", "b"]))), internal());
}

#[test]
fn search_keeps_matching_lines() {
    let lib = Library::new();
    assert_eq!(
        shown(strings::search(&lib, &texts(&["apple\nbanana\r\ncherry\navocado", "^a"]))),
        ok("apple\navocado\n", 0)
    );
    assert_eq!(shown(strings::search(&lib, &texts(&["one\ntwo\n", "x"]))), ok("", 0));
    assert_eq!(shown(strings::search(&lib, &texts(&["one\n\ntwo\n", "^$"]))), ok("\n", 0));
    assert_eq!(shown(strings::search(&lib, &texts(&["one", "("]))), ok("", 1));
    assert_eq!(shown(strings::search(&lib, &texts(&["one"]))), internal());
}

#[test]
fn alphabetic_and_alphanumeric() {
    let lib = Library::new();
    assert_eq!(shown(strings::is_alpha(&lib, &texts(&["abc", "déf"]))), ok("", 0));
    assert_eq!(shown(strings::is_alpha(&lib, &texts(&["abc", "d1f"]))), ok("", 1));
    assert_eq!(shown(strings::is_alpha(&lib, &texts(&[]))), ok("", 0));
    assert_eq!(shown(strings::is_alphanumeric(&lib, &texts(&["abc", "d1f"]))), ok("", 0));
    assert_eq!(shown(strings::is_alphanumeric(&lib, &texts(&["a c"]))), ok("", 1));
}

#[test]
fn random_stays_within_bounds() {
    let lib = Library::new();
    for _ in 0..200 {
        let drawn = math::random(&lib, &texts(&["3", "6"])).ok().unwrap();
        let n: i64 = drawn.value().parse().unwrap();
        assert!((3..6).contains(&n));
        assert_eq!(drawn.code(), 0);
        let drawn = math::random(&lib, &texts(&["4"])).ok().unwrap();
        let n: i64 = drawn.value().parse().unwrap();
        assert!((0..4).contains(&n));
    }
    assert_eq!(shown(math::random(&lib, &texts(&["5", "5"]))), ok("5", 0));
    assert_eq!(shown(math::random(&lib, &texts(&["7", "2"]))), ok("7", 0));
    assert_eq!(shown(math::random(&lib, &texts(&["0"]))), ok("0", 0));
    assert_eq!(shown(math::random(&lib, &texts(&["x", "2"]))), ok("", 1));
    assert_eq!(shown(math::random(&lib, &texts(&[]))), internal());
    assert_eq!(shown(math::random_with(&texts(&["1", "9"]), 4)), ok("4", 0));
    assert_eq!(shown(math::random_with(&texts(&["9", "1"]), 4)), ok("9", 0));
    assert_eq!(math::bounds(&texts(&["9"])), Some((0, 9)));
    assert_eq!(math::bounds(&texts(&["a", "9"])), None);
}

#[test]
fn random_draws_more_than_one_number() {
    let lib = Library::new();
    let mut seen = std::collections::HashSet::new();
    for _ in 0..400 {
        let drawn = math::random(&lib, &texts(&["0", "1000000"])).ok().unwrap();
        seen.insert(drawn.value().to_string());
    }
    assert!(seen.len() > 1);
}
