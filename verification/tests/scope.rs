use dog3::runtime::output::Output;
use dog3::runtime::scope::{Scope, ScopeStack};

fn out(text: &str, code: i64) -> Output {
    Output::new(text.to_string(), code)
}

fn read(stack: &ScopeStack, name: &str) -> Option<(String, i64)> {
    stack.get_var(name).map(|o| (o.value().to_string(), o.code()))
}

fn some(text: &str, code: i64) -> Option<(String, i64)> {
    Some((text.to_string(), code))
}

#[test]
fn unknown_name_is_not_found() {
    let stack = ScopeStack::new(Scope::new());
    assert_eq!(read(&stack, "x"), None);
    assert_eq!(stack.depth(), 0);
}

#[test]
fn set_without_frames_goes_global() {
    let mut stack = ScopeStack::new(Scope::new());
    stack.set_var("x", out("1", 0));
    stack.push();
    assert_eq!(read(&stack, "x"), some("1", 0));
    stack.pop();
    let global = stack.into_global();
    assert_eq!(global.get("x").map(|o| o.value().to_string()), Some("1".to_string()));
}

#[test]
fn set_creates_in_innermost_frame() {
    let mut stack = ScopeStack::new(Scope::new());
    stack.push();
    stack.push();
    stack.set_var("x", out("1", 0));
    assert_eq!(read(&stack, "x"), some("1", 0));
    stack.pop();
    assert_eq!(read(&stack, "x"), None);
    stack.pop();
    assert_eq!(read(&stack, "x"), None);
}

#[test]
fn set_mutates_binding_two_scopes_up() {
    let mut stack = ScopeStack::new(Scope::new());
    stack.push();
    stack.set_var("x", out("old", 0));
    stack.push();
    stack.push();
    stack.set_var("x", out("new", 2));
    assert_eq!(read(&stack, "x"), some("new", 2));
    stack.pop();
    assert_eq!(read(&stack, "x"), some("new", 2));
    stack.pop();
    assert_eq!(stack.depth(), 1);
    assert_eq!(read(&stack, "x"), some("new", 2));
    stack.pop();
    assert_eq!(read(&stack, "x"), None);
}

#[test]
fn set_mutates_global_from_inside() {
    let mut stack = ScopeStack::new(Scope::new());
    stack.set_var("g", out("a", 0));
    stack.push();
    stack.set_var("g", out("b", 0));
    stack.pop();
    assert_eq!(read(&stack, "g"), some("b", 0));
}

#[test]
fn declare_shadows_outer_binding() {
    let mut stack = ScopeStack::new(Scope::new());
    stack.set_var("x", out("outer", 0));
    stack.push();
    stack.declare_var("x", out("inner", 1));
    assert_eq!(read(&stack, "x"), some("inner", 1));
    stack.set_var("x", out("inner2", 0));
    assert_eq!(read(&stack, "x"), some("inner2", 0));
    stack.pop();
    assert_eq!(read(&stack, "x"), some("outer", 0));
}

#[test]
fn declare_without_frames_goes_global() {
    let mut stack = ScopeStack::new(Scope::new());
    stack.declare_var("x", out("1", 0));
    assert_eq!(read(&stack, "x"), some("1", 0));
}

#[test]
fn innermost_binding_wins() {
    let mut stack = ScopeStack::new(Scope::new());
    stack.declare_var("x", out("g", 0));
    stack.push();
    stack.declare_var("x", out("a", 0));
    stack.push();
    stack.declare_var("x", out("b", 0));
    assert_eq!(read(&stack, "x"), some("b", 0));
    stack.pop();
    assert_eq!(read(&stack, "x"), some("a", 0));
    stack.pop();
    assert_eq!(read(&stack, "x"), some("g", 0));
}

#[test]
fn call_frame_sees_globals_but_not_locals() {
    let mut caller = ScopeStack::new(Scope::new());
    caller.set_var("g", out("global", 0));
    caller.push();
    caller.set_var("l", out("local", 0));
    let mut callee = ScopeStack::call_frame(&mut caller);
    assert_eq!(callee.depth(), 0);
    assert_eq!(read(&callee, "g"), some("global", 0));
    assert_eq!(read(&callee, "l"), None);
    callee.push();
    callee.set_var("g", out("changed", 0));
    callee.set_var("p", out("param", 0));
    callee.pop();
    caller.return_frame(callee);
    assert_eq!(caller.depth(), 1);
    assert_eq!(read(&caller, "g"), some("changed", 0));
    assert_eq!(read(&caller, "l"), some("local", 0));
    assert_eq!(read(&caller, "p"), None);
}
