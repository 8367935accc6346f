use dog3::parser::format_string::FormatString;
use dog3::parser::grammar::{
    ActualParameter, Block, ClearStatement, CommandStatement, ControlStatement, Execution,
    ForStatement, FormalParameter, Function, IfElseStatement, IfStatement, OpenStatement,
    ReturnStatement, SetStatement, Value, WhileStatement,
};
use dog3::runtime::functions::FunctionLibrary;
use dog3::runtime::machine::{execute_string, Action, Machine};
use dog3::runtime::output::{join_outputs, Output};
use dog3::runtime::scope::{Scope, ScopeStack};
use dog3::runtime::{ExecutionError, Next, Runtime};

type Host = fn(&[Output]) -> Result<Output, ExecutionError>;

fn put(args: &[Output]) -> Result<Output, ExecutionError> {
    Ok(join_outputs(args))
}

fn truthy(_: &[Output]) -> Result<Output, ExecutionError> {
    Ok(Output::new_truthy())
}

fn falsy(_: &[Output]) -> Result<Output, ExecutionError> {
    Ok(Output::new_falsy())
}

fn like(args: &[Output]) -> Result<Output, ExecutionError> {
    match args {
        [a, b] => Ok(Output::new(String::new(), if a.value() == b.value() { 0 } else { 1 })),
        _ => Err(ExecutionError::InternalError),
    }
}

fn broken(_: &[Output]) -> Result<Output, ExecutionError> {
    Err(ExecutionError::InternalError)
}

fn runtime() -> Runtime<Host> {
    let mut runtime: Runtime<Host> = Runtime::new();
    runtime.functions.add_builtin("put", vec![FormalParameter::new_vector("args")], put);
    runtime.functions.add_builtin("true", vec![], truthy);
    runtime.functions.add_builtin("false", vec![], falsy);
    runtime.functions.add_builtin(
        "like",
        vec![FormalParameter::new("a"), FormalParameter::new("b")],
        like,
    );
    runtime.functions.add_builtin("broken", vec![], broken);
    runtime
}

fn execute(runtime: &mut Runtime<Host>, executions: &[Execution]) -> Result<Output, ExecutionError> {
    let global = std::mem::replace(&mut runtime.global_scope, Scope::new());
    let mut machine = Machine::new(&runtime.functions, global, executions);
    let result = loop {
        match machine.run(1000) {
            Action::Continue => continue,
            Action::Invoke(host, arguments) => {
                let result = host(&arguments);
                assert!(machine.resume(result));
            }
            Action::Finished(result) => break result,
            Action::Waiting | Action::Idle => panic!("the machine stopped without a result"),
        }
    };
    runtime.global_scope = machine.into_global();
    result
}

fn run(executions: Vec<Execution>) -> Result<(String, i64), String> {
    let mut rt = runtime();
    run_in(&mut rt, executions)
}

fn run_in(rt: &mut Runtime<Host>, executions: Vec<Execution>) -> Result<(String, i64), String> {
    match execute(rt, &executions) {
        Ok(out) => Ok((out.value().to_string(), out.code())),
        Err(err) => Err(err.to_string()),
    }
}

fn ok(text: &str, code: i64) -> Result<(String, i64), String> {
    Ok((text.to_string(), code))
}

fn tpl(source: &str) -> Value {
    Value::String(FormatString::parse(source, true))
}

fn lit(source: &str) -> Value {
    Value::String(FormatString::parse(source, false))
}

fn open(stmt: OpenStatement) -> Execution {
    Execution::OpenStatement(stmt)
}

fn call_value(name: &str, args: Vec<Value>) -> Value {
    Value::Block(Box::new(Block { executions: vec![call(name, args)] }))
}

fn call(name: &str, args: Vec<Value>) -> Execution {
    open(OpenStatement::CommandStmt(CommandStatement {
        name: name.to_string(),
        parameters: args.into_iter().map(|value| ActualParameter { value }).collect(),
    }))
}

fn set(variable: &str, value: Value) -> Execution {
    open(OpenStatement::SetStmt(SetStatement { variable: variable.to_string(), value }))
}

fn ret(value: Option<Value>) -> Execution {
    open(OpenStatement::ReturnStmt(ReturnStatement { value }))
}

fn clear(value: Option<Value>) -> Execution {
    open(OpenStatement::ClearStmt(ClearStatement { value }))
}

fn block(executions: Vec<Execution>) -> Block {
    Block { executions }
}

fn block_value(executions: Vec<Execution>) -> Value {
    Value::Block(Box::new(block(executions)))
}

fn control_value(control: ControlStatement) -> Value {
    Value::ControlStatement(Box::new(control))
}

fn for_stmt(variable: &str, list: Value, split: Option<Value>, output: Value) -> ControlStatement {
    ControlStatement::ForStatement(ForStatement {
        variable: variable.to_string(),
        split,
        list,
        output,
    })
}

fn function(name: &str, params: Vec<FormalParameter>, body: Vec<Execution>) -> Function {
    Function {
        name: name.to_string(),
        args: params,
        block: block(body),
        script: format!("fn {}", name),
    }
}

#[test]
fn template_with_bound_variable() {
    let mut stack = ScopeStack::new(Scope::new());
    stack.set_var("name", Output::new("World".to_string(), 0));
    let template = FormatString::parse("\"Hello $name\"", true);
    match execute_string(&stack, &template) {
        Next::Append(out) => {
            assert_eq!(out.value(), "Hello World");
            assert_eq!(out.code(), 0);
        }
        _ => panic!("the template must evaluate to a value"),
    }
    let template = FormatString::parse("\"Hello $name, welcome!\"", true);
    match execute_string(&stack, &template) {
        Next::Append(out) => {
            assert_eq!(out.value(), "Hello World, welcome!");
            assert_eq!(out.code(), 0);
        }
        _ => panic!("the template must evaluate to a value"),
    }
}

#[test]
fn template_name_runs_to_the_next_boundary() {
    let mut stack = ScopeStack::new(Scope::new());
    stack.set_var("name", Output::new("World".to_string(), 0));
    let template = FormatString::parse("\"Hello $name!\"", true);
    match execute_string(&stack, &template) {
        Next::Abort(ExecutionError::UndeclaredVariable(name)) => assert_eq!(name, "name!"),
        _ => panic!("`!` is part of the name"),
    }
    stack.set_var("name!", Output::new("World!".to_string(), 0));
    match execute_string(&stack, &template) {
        Next::Append(out) => {
            assert_eq!(out.value(), "Hello World!");
            assert_eq!(out.code(), 0);
        }
        _ => panic!("the template must evaluate to a value"),
    }
}

#[test]
fn single_quoted_template_is_literal() {
    let stack = ScopeStack::new(Scope::new());
    let template = FormatString::parse("'Hello $name!'", false);
    match execute_string(&stack, &template) {
        Next::Append(out) => {
            assert_eq!(out.value(), "Hello $name!");
            assert_eq!(out.code(), 0);
        }
        _ => panic!("a literal template never aborts"),
    }
}

#[test]
fn template_status_is_that_of_the_last_piece() {
    let mut stack = ScopeStack::new(Scope::new());
    stack.set_var("bad", Output::new("no".to_string(), 3));
    match execute_string(&stack, &FormatString::parse("\"x $bad\"", true)) {
        Next::Append(out) => {
            assert_eq!(out.value(), "x no");
            assert_eq!(out.code(), 3);
        }
        _ => panic!(),
    }
    match execute_string(&stack, &FormatString::parse("\"$bad x\"", true)) {
        Next::Append(out) => {
            assert_eq!(out.value(), "no x");
            assert_eq!(out.code(), 0);
        }
        _ => panic!(),
    }
    match execute_string(&stack, &FormatString::parse("\"\"", true)) {
        Next::Append(out) => {
            assert_eq!(out.value(), "");
            assert_eq!(out.code(), 0);
        }
        _ => panic!(),
    }
}

#[test]
fn undeclared_variable_aborts() {
    let res = run(vec![call("put", vec![tpl("\"a\"")]), call("put", vec![tpl("\"$nope\"")])]);
    assert_eq!(res, Err("error: Use of undeclared variable `nope`".to_string()));
}

#[test]
fn empty_program_is_truthy_empty() {
    assert_eq!(run(vec![]), ok("", 0));
}

#[test]
fn open_statements_are_concatenated() {
    let res = run(vec![call("put", vec![tpl("\"a\"")]), call("put", vec![tpl("\"b\""), tpl("\"c\"")])]);
    assert_eq!(res, ok("ab c", 0));
}

#[test]
fn nested_block_and_control_results_are_suppressed() {
    let res = run(vec![
        call("put", vec![tpl("\"a\"")]),
        Execution::Block(block(vec![call("put", vec![tpl("\"hidden\"")])])),
        Execution::ControlStatement(ControlStatement::IfStatement(IfStatement {
            condition: call_value("true", vec![]),
            output: call_value("put", vec![tpl("\"hidden\"")]),
        })),
        call("put", vec![tpl("\"b\"")]),
    ]);
    assert_eq!(res, ok("ab", 0));
}

#[test]
fn clear_discards_what_was_gathered() {
    let body = vec![
        call("put", vec![tpl("\"x\"")]),
        clear(None),
        call("put", vec![tpl("\"y\"")]),
    ];
    assert_eq!(run(vec![call("put", vec![block_value(body)])]), ok("y", 0));
    let top = vec![
        call("put", vec![tpl("\"x\"")]),
        clear(None),
        call("put", vec![tpl("\"y\"")]),
    ];
    assert_eq!(run(top), ok("y", 0));
}

#[test]
fn clear_with_value_replaces() {
    let res = run(vec![
        call("put", vec![tpl("\"x\"")]),
        clear(Some(tpl("\"z\""))),
        call("put", vec![tpl("\"y\"")]),
    ]);
    assert_eq!(res, ok("zy", 0));
}

#[test]
fn set_is_silent_and_binds() {
    let res = run(vec![set("v", tpl("\"val\"")), call("put", vec![tpl("\"[$v]\"")])]);
    assert_eq!(res, ok("[val]", 0));
}

#[test]
fn block_locals_end_with_the_block() {
    let res = run(vec![
        Execution::Block(block(vec![set("v", tpl("\"val\""))])),
        call("put", vec![tpl("\"$v\"")]),
    ]);
    assert_eq!(res, Err("error: Use of undeclared variable `v`".to_string()));
}

#[test]
fn set_in_block_mutates_outer_binding() {
    let res = run(vec![
        set("v", tpl("\"old\"")),
        Execution::Block(block(vec![Execution::Block(block(vec![set("v", tpl("\"new\""))]))])),
        call("put", vec![tpl("\"$v\"")]),
    ]);
    assert_eq!(res, ok("new", 0));
}

#[test]
fn globals_outlive_one_execution() {
    let mut rt = runtime();
    assert_eq!(run_in(&mut rt, vec![set("g", tpl("\"kept\""))]), ok("", 0));
    assert_eq!(run_in(&mut rt, vec![call("put", vec![tpl("\"$g\"")])]), ok("kept", 0));
}

#[test]
fn top_level_return_ends_the_program() {
    let res = run(vec![
        call("put", vec![tpl("\"a\"")]),
        ret(Some(tpl("\"r\""))),
        call("put", vec![tpl("\"b\"")]),
    ]);
    assert_eq!(res, ok("r", 0));
    assert_eq!(run(vec![ret(None)]), ok("", 0));
}

#[test]
fn for_loop_appends_each_iteration() {
    let res = run(vec![call(
        "put",
        vec![control_value(for_stmt("x", tpl("\"a b c\""), None, tpl("\"[$x]\"")))],
    )]);
    assert_eq!(res, ok("[a][b][c]", 0));
}

#[test]
fn for_loop_with_separator() {
    let res = run(vec![call(
        "put",
        vec![control_value(for_stmt("x", tpl("\"a,b,,c\""), Some(tpl("\",\"")), tpl("\"[$x]\"")))],
    )]);
    assert_eq!(res, ok("[a][b][][c]", 0));
    let res = run(vec![call(
        "put",
        vec![control_value(for_stmt("x", tpl("\"héé\""), Some(tpl("\"\"")), tpl("\"[$x]\"")))],
    )]);
    assert_eq!(res, ok("[h][é][é]", 0));
}

#[test]
fn for_loop_over_nothing_is_truthy_empty() {
    let res = run(vec![call(
        "put",
        vec![control_value(for_stmt("x", tpl("\"  \""), None, tpl("\"[$x]\"")))],
    )]);
    assert_eq!(res, ok("", 0));
}

#[test]
fn for_loop_return_stops_at_first_iteration() {
    let body = block_value(vec![
        set("seen", tpl("\"$seen$x\"")),
        ret(Some(tpl("\"got $x\""))),
    ]);
    let mut rt = runtime();
    let res = run_in(
        &mut rt,
        vec![
            set("seen", tpl("\"\"")),
            call("put", vec![tpl("\"before\"")]),
            Execution::ControlStatement(for_stmt("x", tpl("\"a b c\""), None, body)),
            call("put", vec![tpl("\"after\"")]),
        ],
    );
    assert_eq!(res, ok("got a", 0));
    assert_eq!(rt.global_scope.get("seen").map(|o| o.value().to_string()), Some("a".to_string()));
}

#[test]
fn for_loop_variable_is_local_to_the_iteration() {
    let res = run(vec![
        Execution::ControlStatement(for_stmt("x", tpl("\"a b\""), None, tpl("\"$x\""))),
        call("put", vec![tpl("\"$x\"")]),
    ]);
    assert_eq!(res, Err("error: Use of undeclared variable `x`".to_string()));
}

#[test]
fn for_loop_aborts_on_list_error() {
    let res = run(vec![Execution::ControlStatement(for_stmt(
        "x",
        tpl("\"$nope\""),
        None,
        tpl("\"$x\""),
    ))]);
    assert_eq!(res, Err("error: Use of undeclared variable `nope`".to_string()));
}

#[test]
fn if_selects_by_status() {
    let yes = control_value(ControlStatement::IfStatement(IfStatement {
        condition: call_value("true", vec![]),
        output: tpl("\"yes\""),
    }));
    assert_eq!(run(vec![call("put", vec![yes])]), ok("yes", 0));
    let no = control_value(ControlStatement::IfStatement(IfStatement {
        condition: call_value("false", vec![]),
        output: tpl("\"yes\""),
    }));
    assert_eq!(run(vec![call("put", vec![no])]), ok("", 1));
}

#[test]
fn if_else_selects_by_status() {
    let pick = |condition: &str| {
        control_value(ControlStatement::IfElseStatement(IfElseStatement {
            condition: call_value(condition, vec![]),
            output_true: tpl("\"yes\""),
            output_false: tpl("\"no\""),
        }))
    };
    assert_eq!(run(vec![call("put", vec![pick("true")])]), ok("yes", 0));
    assert_eq!(run(vec![call("put", vec![pick("false")])]), ok("no", 0));
}

#[test]
fn while_runs_until_falsy() {
    let body = block_value(vec![
        set("n", tpl("\"$n;\"")),
        call("put", vec![tpl("\"[$n]\"")]),
    ]);
    let condition = block_value(vec![
        clear(Some(call_value("like", vec![tpl("\"$n\""), tpl("\";;;\"")]))),
    ]);
    let negate = control_value(ControlStatement::IfElseStatement(IfElseStatement {
        condition,
        output_true: call_value("false", vec![]),
        output_false: call_value("true", vec![]),
    }));
    let res = run(vec![
        set("n", tpl("\"\"")),
        call(
            "put",
            vec![control_value(ControlStatement::WhileStatement(WhileStatement {
                condition: negate,
                output: body,
            }))],
        ),
    ]);
    assert_eq!(res, ok("[;][;;][;;;]", 0));
}

#[test]
fn while_with_falsy_condition_is_truthy_empty() {
    let res = run(vec![call(
        "put",
        vec![control_value(ControlStatement::WhileStatement(WhileStatement {
            condition: call_value("false", vec![]),
            output: tpl("\"x\""),
        }))],
    )]);
    assert_eq!(res, ok("", 0));
}

#[test]
fn unknown_function_aborts_after_arguments() {
    let res = run(vec![call("nope", vec![tpl("\"a\"")])]);
    assert_eq!(res, Err("error: Use of undefined function `nope`".to_string()));
    let res = run(vec![call("nope", vec![tpl("\"$missing\"")])]);
    assert_eq!(res, Err("error: Use of undeclared variable `missing`".to_string()));
}

#[test]
fn missing_overload_aborts() {
    let res = run(vec![call("like", vec![tpl("\"a\"")])]);
    assert_eq!(
        res,
        Err("error: no overload for function `like` takes `1` arguments".to_string())
    );
}

#[test]
fn host_error_aborts() {
    let res = run(vec![call("put", vec![tpl("\"a\"")]), call("broken", vec![])]);
    assert_eq!(res, Err("error: Internal runtime error".to_string()));
}

#[test]
fn script_function_binds_parameters() {
    let mut rt = runtime();
    let added = rt.functions.add_script(function(
        "greet",
        vec![FormalParameter::new("who"), FormalParameter::new_vector("rest")],
        vec![call("put", vec![tpl("\"hi $who [$rest]\"")])],
    ));
    assert!(added.is_ok());
    let res = run_in(
        &mut rt,
        vec![call("greet", vec![tpl("\"a\""), tpl("\"b\""), tpl("\"c\"")])],
    );
    assert_eq!(res, ok("hi a [b c]", 0));
    let res = run_in(&mut rt, vec![call("greet", vec![tpl("\"a\"")])]);
    assert_eq!(res, ok("hi a []", 0));
    let res = run_in(&mut rt, vec![call("greet", vec![])]);
    assert_eq!(
        res,
        Err("error: no overload for function `greet` takes `0` arguments".to_string())
    );
}

#[test]
fn script_function_return_becomes_value() {
    let mut rt = runtime();
    assert!(rt
        .functions
        .add_script(function(
            "f",
            vec![],
            vec![
                call("put", vec![tpl("\"x\"")]),
                Execution::Block(block(vec![ret(Some(tpl("\"r\"")))])),
                call("put", vec![tpl("\"y\"")]),
            ],
        ))
        .is_ok());
    let res = run_in(
        &mut rt,
        vec![call("put", vec![tpl("\"a\"")]), call("f", vec![]), call("put", vec![tpl("\"b\"")])],
    );
    assert_eq!(res, ok("arb", 0));
}

#[test]
fn callee_does_not_see_caller_locals() {
    let mut rt = runtime();
    assert!(rt
        .functions
        .add_script(function("peek", vec![], vec![call("put", vec![tpl("\"$local\"")])]))
        .is_ok());
    assert!(rt
        .functions
        .add_script(function("glob", vec![], vec![call("put", vec![tpl("\"$g\"")])]))
        .is_ok());
    let res = run_in(
        &mut rt,
        vec![Execution::Block(block(vec![set("local", tpl("\"l\"")), call("peek", vec![])]))],
    );
    assert_eq!(res, Err("error: Use of undeclared variable `local`".to_string()));
    let res = run_in(&mut rt, vec![set("g", tpl("\"G\"")), call("glob", vec![])]);
    assert_eq!(res, ok("G", 0));
}

#[test]
fn caller_locals_survive_a_call() {
    let mut rt = runtime();
    assert!(rt
        .functions
        .add_script(function(
            "f",
            vec![FormalParameter::new("p")],
            vec![set("inner", tpl("\"i\"")), call("put", vec![tpl("\"$p\"")])],
        ))
        .is_ok());
    let res = run_in(
        &mut rt,
        vec![call(
            "put",
            vec![block_value(vec![
                set("local", tpl("\"l\"")),
                call("f", vec![tpl("\"arg\"")]),
                call("put", vec![tpl("\"$local\"")]),
            ])],
        )],
    );
    assert_eq!(res, ok("argl", 0));
    let res = run_in(&mut rt, vec![call("put", vec![tpl("\"$p\"")])]);
    assert_eq!(res, Err("error: Use of undeclared variable `p`".to_string()));
    let res = run_in(&mut rt, vec![call("put", vec![tpl("\"$inner\"")])]);
    assert_eq!(res, Err("error: Use of undeclared variable `inner`".to_string()));
}

#[test]
fn recursion_runs() {
    let mut rt = runtime();
    let body = vec![Execution::ControlStatement(ControlStatement::IfElseStatement(
        IfElseStatement {
            condition: call_value("like", vec![tpl("\"$n\""), tpl("\";;;\"")]),
            output_true: block_value(vec![ret(Some(tpl("\"done\"")))]),
            output_false: block_value(vec![ret(Some(call_value("down", vec![tpl("\"$n;\"")])))]),
        },
    ))];
    assert!(rt.functions.add_script(function("down", vec![FormalParameter::new("n")], body)).is_ok());
    let res = run_in(&mut rt, vec![call("down", vec![lit("''")])]);
    assert_eq!(res, ok("done", 0));
}

#[test]
fn steps_after_the_end_are_idle() {
    let rt = runtime();
    let executions: Vec<Execution> = vec![];
    let mut machine = Machine::new(&rt.functions, Scope::new(), &executions);
    assert!(matches!(machine.step(), Action::Finished(Ok(_))));
    assert!(matches!(machine.step(), Action::Idle));
    assert!(!machine.resume(Ok(Output::new_truthy())));
    assert!(matches!(machine.run(10), Action::Idle));
}

#[test]
fn machine_waits_for_the_host() {
    let rt = runtime();
    let executions = vec![call("put", vec![tpl("\"a\"")])];
    let mut machine = Machine::new(&rt.functions, Scope::new(), &executions);
    let action = machine.run(100);
    match action {
        Action::Invoke(_, arguments) => {
            assert_eq!(arguments.len(), 1);
            assert_eq!(arguments[0].value(), "a");
        }
        _ => panic!("the call must reach the host"),
    }
    assert!(machine.is_waiting());
    assert!(matches!(machine.step(), Action::Waiting));
    assert!(machine.resume(Ok(Output::new("z".to_string(), 4))));
    assert!(!machine.is_waiting());
    match machine.run(100) {
        Action::Finished(Ok(out)) => {
            assert_eq!(out.value(), "z");
            assert_eq!(out.code(), 4);
        }
        _ => panic!("the program must end"),
    }
}

#[test]
fn run_stops_at_the_limit() {
    let rt = runtime();
    let executions = vec![set("a", tpl("\"1\"")), set("b", tpl("\"2\""))];
    let mut machine = Machine::new(&rt.functions, Scope::new(), &executions);
    assert!(matches!(machine.run(0), Action::Continue));
    assert!(matches!(machine.run(2), Action::Continue));
    assert!(matches!(machine.run(1000), Action::Finished(Ok(_))));
}

#[test]
fn script_registration_reports_refusals() {
    let mut rt = runtime();
    let (registered, refused) = rt.register_script_library(vec![
        function("a", vec![], vec![]),
        function("put", vec![], vec![]),
        function("b", vec![], vec![]),
    ]);
    assert_eq!(registered, vec!["fn a".to_string(), "fn b".to_string()]);
    assert_eq!(refused.len(), 1);
    assert_eq!(refused[0].to_string(), "Can not overload built-in function `put`");
    assert!(rt.functions.resolve("b", 0).is_ok());
}

#[test]
fn library_registration_merges() {
    let mut rt = runtime();
    let mut other: FunctionLibrary<Host> = FunctionLibrary::new();
    other.add_builtin("extra", vec![], truthy);
    assert_eq!(rt.register_library(other).ok(), Some("Registered 1 functions".to_string()));
    assert!(rt.functions.resolve("extra", 0).is_ok());
}

#[test]
fn signals_lift_and_suppress() {
    assert!(matches!(Next::Append(Output::new_truthy()).supress(), Next::Proceed));
    assert!(matches!(Next::Return(Output::new_truthy()).supress(), Next::Return(_)));
    assert!(matches!(Next::Clear(Output::new_truthy()).supress(), Next::Clear(_)));
    assert!(matches!(Next::Proceed.supress(), Next::Proceed));
    assert!(matches!(Next::from(Ok(Output::new_truthy())), Next::Append(_)));
    assert!(matches!(Next::from(Err(ExecutionError::InternalError)), Next::Abort(_)));
    assert!(matches!(Next::Proceed.into_result(), Err(ExecutionError::InternalError)));
    assert!(matches!(Next::Clear(Output::new_truthy()).into_result(), Err(ExecutionError::InternalError)));
    assert!(matches!(Next::Return(Output::new_truthy()).into_result(), Ok(_)));
    assert!(matches!(Next::Append(Output::new_truthy()).into_result(), Ok(_)));
}

#[test]
fn error_messages() {
    assert_eq!(
        ExecutionError::UndeclaredVariable("v".to_string()).to_string(),
        "error: Use of undeclared variable `v`"
    );
    assert_eq!(
        ExecutionError::UndefinedFunction("f".to_string()).to_string(),
        "error: Use of undefined function `f`"
    );
    assert_eq!(
        ExecutionError::UndefinedOverload("f".to_string(), 0).to_string(),
        "error: no overload for function `f` takes `0` arguments"
    );
    assert_eq!(ExecutionError::InternalError.to_string(), "error: Internal runtime error");
    assert_eq!(
        ExecutionError::UndefinedOverload("f".to_string(), 1203).clone().to_string(),
        "error: no overload for function `f` takes `1203` arguments"
    );
}

#[test]
fn a_copy_of_a_statement_runs_alike() {
    let body = block_value(vec![
        set("v", tpl("\"a b\"")),
        Execution::ControlStatement(for_stmt("x", tpl("\"$v\""), None, tpl("\"[$x]\""))),
        call("put", vec![control_value(for_stmt("x", tpl("\"$v\""), Some(tpl("\" \"")), tpl("\"[$x]\"")))]),
        clear(Some(tpl("\"kept\""))),
        ret(None),
    ]);
    let statement = call("put", vec![body]);
    let copy = statement.clone();
    assert_eq!(run(vec![copy]), run(vec![statement]));
}

#[test]
fn escaped_dollar_is_printed() {
    let stack = ScopeStack::new(Scope::new());
    match execute_string(&stack, &FormatString::parse("\"cost: \\$5\"", true)) {
        Next::Append(out) => {
            assert_eq!(out.value(), "cost: $5");
            assert_eq!(out.code(), 0);
        }
        _ => panic!("an escaped dollar sign names no variable"),
    }
}

#[test]
fn marker_without_a_name_reads_the_empty_name() {
    let mut stack = ScopeStack::new(Scope::new());
    let template = FormatString::parse("\"a $ b\"", true);
    match execute_string(&stack, &template) {
        Next::Abort(ExecutionError::UndeclaredVariable(name)) => assert_eq!(name, ""),
        _ => panic!("the empty name is bound nowhere"),
    }
    stack.set_var("", Output::new("x".to_string(), 0));
    match execute_string(&stack, &template) {
        Next::Append(out) => assert_eq!(out.value(), "a x b"),
        _ => panic!(),
    }
}
