use dog3::parser::grammar::{Block, FormalParameter, Function};
use dog3::runtime::functions::{AnonymousFunction, FunctionLibrary, RegisterError, Runnable};
use dog3::runtime::ExecutionError;

fn params(names: &[&str]) -> Vec<FormalParameter> {
    names
        .iter()
        .map(|n| {
            if let Some(rest) = n.strip_prefix('%') {
                FormalParameter::new_vector(rest)
            } else {
                FormalParameter::new(n)
            }
        })
        .collect()
}

fn script(name: &str, names: &[&str], source: &str) -> Function {
    Function {
        name: name.to_string(),
        args: params(names),
        block: Block { executions: vec![] },
        script: source.to_string(),
    }
}

fn host_id(f: &AnonymousFunction<u32>) -> Option<u32> {
    match &f.runnable {
        Runnable::BuiltIn(id) => Some(*id),
        Runnable::Block(_) => None,
    }
}

#[test]
fn argument_counts_follow_the_parameters() {
    let plain: AnonymousFunction<u32> = AnonymousFunction::new(params(&["a", "b"]), Runnable::BuiltIn(1), None);
    assert_eq!((plain.min_args, plain.max_args), (2, 2));
    let none: AnonymousFunction<u32> = AnonymousFunction::new(params(&[]), Runnable::BuiltIn(1), None);
    assert_eq!((none.min_args, none.max_args), (0, 0));
    let vector: AnonymousFunction<u32> = AnonymousFunction::new(params(&["a", "%rest"]), Runnable::BuiltIn(1), None);
    assert_eq!((vector.min_args, vector.max_args), (1, usize::MAX));
    let only: AnonymousFunction<u32> = AnonymousFunction::new(params(&["%rest"]), Runnable::BuiltIn(1), None);
    assert_eq!((only.min_args, only.max_args), (0, usize::MAX));
    assert!(plain.is_builtin());
    assert!(plain.collides(&vector));
    assert!(!plain.collides(&none));
    assert!(none.collides(&only));
    let block: AnonymousFunction<u32> =
        AnonymousFunction::new(params(&[]), Runnable::Block(Block { executions: vec![] }), None);
    assert!(!block.is_builtin());
}

#[test]
fn script_over_host_is_rejected() {
    let mut library: FunctionLibrary<u32> = FunctionLibrary::new();
    library.add_builtin("f", params(&["a"]), 7);
    let res = library.add_script(script("f", &["a", "b"], "fn f(a, b) {}"));
    match res {
        Err(RegisterError::OverloadBuiltin(name)) => assert_eq!(name, "f"),
        Ok(_) => panic!("a script overload of a host function was accepted"),
    }
    assert_eq!(library.get_list("f").map(|l| l.len()), Some(1));
    assert_eq!(library.resolve("f", 1).ok().and_then(host_id), Some(7));
    match library.resolve("f", 2) {
        Err(ExecutionError::UndefinedOverload(name, count)) => {
            assert_eq!(name, "f");
            assert_eq!(count, 2);
        }
        _ => panic!("arity 2 must not resolve"),
    }
}

#[test]
fn rejection_message() {
    let err = RegisterError::OverloadBuiltin("f".to_string());
    assert_eq!(err.to_string(), "Can not overload built-in function `f`");
}

#[test]
fn colliding_overload_is_evicted() {
    let mut library: FunctionLibrary<u32> = FunctionLibrary::new();
    library.add_builtin("f", params(&["a", "b"]), 1);
    library.add_builtin("f", params(&["a", "b", "%rest"]), 2);
    assert_eq!(library.get_list("f").map(|l| l.len()), Some(1));
    assert_eq!(library.resolve("f", 2).ok().and_then(host_id), Some(2));
    assert_eq!(library.resolve("f", 5).ok().and_then(host_id), Some(2));
    assert!(library.resolve("f", 1).is_err());
}

#[test]
fn disjoint_overloads_stay() {
    let mut library: FunctionLibrary<u32> = FunctionLibrary::new();
    library.add_builtin("f", params(&["a"]), 1);
    library.add_builtin("f", params(&["a", "b"]), 2);
    library.add_builtin("f", params(&["a", "b", "c", "%rest"]), 3);
    assert_eq!(library.get_list("f").map(|l| l.len()), Some(3));
    assert_eq!(library.resolve("f", 1).ok().and_then(host_id), Some(1));
    assert_eq!(library.resolve("f", 2).ok().and_then(host_id), Some(2));
    assert_eq!(library.resolve("f", 3).ok().and_then(host_id), Some(3));
    assert_eq!(library.resolve("f", 9).ok().and_then(host_id), Some(3));
    assert!(library.resolve("f", 0).is_err());
    library.add_builtin("f", params(&["%all"]), 4);
    assert_eq!(library.get_list("f").map(|l| l.len()), Some(1));
    assert_eq!(library.resolve("f", 0).ok().and_then(host_id), Some(4));
}

#[test]
fn unknown_function_and_overload_errors() {
    let mut library: FunctionLibrary<u32> = FunctionLibrary::new();
    library.add_builtin("f", params(&["a"]), 1);
    match library.resolve("g", 1) {
        Err(err) => {
            assert!(matches!(err, ExecutionError::UndefinedFunction(ref n) if n == "g"));
            assert_eq!(err.to_string(), "error: Use of undefined function `g`");
        }
        Ok(_) => panic!("g is not registered"),
    }
    match library.resolve("f", 12) {
        Err(err) => {
            assert_eq!(err.to_string(), "error: no overload for function `f` takes `12` arguments");
        }
        Ok(_) => panic!("f takes one argument"),
    }
    assert!(library.get_list("g").is_none());
}

#[test]
fn confirmation_texts() {
    let mut library: FunctionLibrary<u32> = FunctionLibrary::new();
    let first = library.add("f", params(&["a"]), Runnable::BuiltIn(1), None);
    assert_eq!(first.ok(), Some("Registered function `f` (1-1 args)".to_string()));
    let second = library.add("f", params(&["a", "b", "%c"]), Runnable::BuiltIn(2), None);
    assert_eq!(
        second.ok(),
        Some(format!("Registered overload for `f` (2-{} args)", usize::MAX))
    );
    let third = library.add_script(script("g", &[], "fn g() {}"));
    assert_eq!(third.ok(), Some("Registered function `g` (0-0 args)".to_string()));
}

#[test]
fn host_may_shadow_script() {
    let mut library: FunctionLibrary<u32> = FunctionLibrary::new();
    assert!(library.add_script(script("f", &["a"], "one")).is_ok());
    assert!(library.add_script(script("f", &["a", "b"], "two")).is_ok());
    library.add_builtin("f", params(&["a"]), 9);
    let list = library.get_list("f").unwrap();
    assert_eq!(list.len(), 2);
    assert_eq!(list[0].script.as_deref(), Some("two"));
    assert_eq!(host_id(&list[1]), Some(9));
    assert!(library.add_script(script("f", &["a", "b", "c"], "three")).is_err());
}

#[test]
fn merge_registers_everything_in_order() {
    let mut base: FunctionLibrary<u32> = FunctionLibrary::new();
    base.add_builtin("f", params(&["a"]), 1);
    let mut other: FunctionLibrary<u32> = FunctionLibrary::new();
    other.add_builtin("f", params(&["a"]), 2);
    other.add_builtin("g", params(&[]), 3);
    other.add_builtin("g", params(&["a"]), 4);
    let res = base.merge(other);
    assert_eq!(res.ok(), Some("Registered 3 functions".to_string()));
    assert_eq!(base.resolve("f", 1).ok().and_then(host_id), Some(2));
    assert_eq!(base.resolve("g", 0).ok().and_then(host_id), Some(3));
    assert_eq!(base.resolve("g", 1).ok().and_then(host_id), Some(4));
}

#[test]
fn merge_stops_at_first_rejection() {
    let mut base: FunctionLibrary<u32> = FunctionLibrary::new();
    base.add_builtin("g", params(&["a"]), 1);
    let mut other: FunctionLibrary<u32> = FunctionLibrary::new();
    assert!(other.add_script(script("f", &[], "f0")).is_ok());
    assert!(other.add_script(script("g", &[], "g0")).is_ok());
    assert!(other.add_script(script("h", &[], "h0")).is_ok());
    let res = base.merge(other);
    assert!(matches!(res, Err(RegisterError::OverloadBuiltin(ref n)) if n == "g"));
    assert!(base.resolve("f", 0).is_ok());
    assert!(base.resolve("h", 0).is_err());
    assert_eq!(base.resolve("g", 1).ok().and_then(host_id), Some(1));
}

#[test]
fn add_scripts_stops_at_first_rejection() {
    let mut base: FunctionLibrary<u32> = FunctionLibrary::new();
    base.add_builtin("g", params(&["a"]), 1);
    let res = base.add_scripts(vec![
        script("f", &[], "f0"),
        script("g", &[], "g0"),
        script("h", &[], "h0"),
    ]);
    assert!(matches!(res, Err(RegisterError::OverloadBuiltin(ref n)) if n == "g"));
    assert!(base.resolve("f", 0).is_ok());
    assert!(base.resolve("h", 0).is_err());
    let mut fresh: FunctionLibrary<u32> = FunctionLibrary::new();
    assert!(fresh.add_scripts(vec![script("f", &[], "f0"), script("f", &["a"], "f1")]).is_ok());
    assert_eq!(fresh.get_list("f").map(|l| l.len()), Some(2));
}

#[test]
fn a_copy_of_the_registry_resolves_alike() {
    let mut library: FunctionLibrary<u32> = FunctionLibrary::new();
    library.add_builtin("f", params(&["a"]), 1);
    library.add_builtin("f", params(&["a", "%rest"]), 2);
    assert!(library.add_script(script("g", &["x"], "fn g(x) {}")).is_ok());
    let mut copy = library.clone();
    assert_eq!(copy.get_scripts(true, true, None), library.get_scripts(true, true, None));
    assert_eq!(copy.resolve("f", 1).ok().and_then(host_id), Some(2));
    assert_eq!(copy.resolve("g", 1).ok().and_then(|f| f.script.clone()), Some("fn g(x) {}".to_string()));
    copy.add_builtin("h", params(&[]), 3);
    assert!(copy.resolve("h", 0).is_ok());
    assert!(library.resolve("h", 0).is_err());
    let mut merged: FunctionLibrary<u32> = FunctionLibrary::new();
    assert!(merged.merge(library.clone()).is_ok());
    assert_eq!(merged.get_scripts(true, true, None), library.get_scripts(true, true, None));
}
