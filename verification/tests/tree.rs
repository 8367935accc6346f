use dog3::parser::format_string::{FormatString, FormatStringPiece};
use dog3::parser::grammar::{
    ControlStatement, Execution, OpenStatement, Value,
};
use dog3::parser::tree::{
    build_block, build_control, build_function, build_open, build_program, build_template,
    build_value, Pair, Rule,
};

fn node(rule: Rule, text: &str, inner: Vec<Pair>) -> Pair {
    Pair { rule, text: text.to_string(), inner }
}

fn leaf(rule: Rule, text: &str) -> Pair {
    node(rule, text, vec![])
}

fn string(text: &str) -> Pair {
    let kind = if text.starts_with('\'') {
        Rule::SQuoteString
    } else if text.starts_with('"') {
        Rule::DQuoteString
    } else {
        Rule::RawString
    };
    node(Rule::String, text, vec![leaf(kind, text)])
}

fn value(inner: Pair) -> Pair {
    let text = inner.text.clone();
    node(Rule::Value, &text, vec![inner])
}

fn ident(text: &str) -> Pair {
    leaf(Rule::Identifier, text)
}

fn command(name: &str, args: Vec<Pair>) -> Pair {
    node(
        Rule::OpenStmt,
        name,
        vec![node(Rule::CommandStmt, name, vec![ident(name), node(Rule::CommandArgs, "", args)])],
    )
}

fn template_text(value: &Value) -> String {
    match value {
        Value::String(t) => t.as_str().to_string(),
        _ => panic!("a template was expected"),
    }
}

fn pieces(template: &FormatString) -> Vec<(bool, String)> {
    let mut iter = template.into_iter();
    let mut out = vec![];
    loop {
        match iter.next() {
            Some(FormatStringPiece::Raw(s)) => out.push((false, s.to_string())),
            Some(FormatStringPiece::Variable(s)) => out.push((true, s.to_string())),
            None => break,
        }
    }
    out
}

#[test]
fn template_expands_unless_single_quoted() {
    let double = build_template(&string("\"a $b\"")).unwrap();
    assert_eq!(pieces(&double), vec![(false, "a ".to_string()), (true, "b".to_string())]);
    let single = build_template(&string("'a $b'")).unwrap();
    assert_eq!(pieces(&single), vec![(false, "a $b".to_string())]);
    let bare = build_template(&string("$b")).unwrap();
    assert_eq!(pieces(&bare), vec![(true, "b".to_string())]);
    assert!(build_template(&leaf(Rule::String, "\"x\"")).is_none());
}

#[test]
fn value_is_its_first_node() {
    assert_eq!(template_text(&build_value(&value(string("\"x\""))).unwrap()), "x");
    let block = node(Rule::Block, "{}", vec![leaf(Rule::LCurly, "{"), leaf(Rule::RCurly, "}")]);
    assert!(matches!(build_value(&value(block)), Some(Value::Block(_))));
    assert!(build_value(&leaf(Rule::Value, "")).is_none());
    assert!(build_value(&node(Rule::Value, "", vec![ident("x")])).is_none());
}

#[test]
fn for_statement_with_and_without_split() {
    let plain = node(
        Rule::ControlStmt,
        "",
        vec![node(
            Rule::ForStmt,
            "",
            vec![
                leaf(Rule::For, "for"),
                ident("x"),
                leaf(Rule::In, "in"),
                value(string("\"a b\"")),
                value(string("\"[$x]\"")),
            ],
        )],
    );
    match build_control(&plain) {
        Some(ControlStatement::ForStatement(stmt)) => {
            assert_eq!(stmt.variable, "x");
            assert!(stmt.split.is_none());
            assert_eq!(template_text(&stmt.list), "a b");
            assert_eq!(template_text(&stmt.output), "[x]");
        }
        _ => panic!("a for statement was expected"),
    }
    let split = node(
        Rule::ControlStmt,
        "",
        vec![node(
            Rule::ForSplitStmt,
            "",
            vec![
                leaf(Rule::For, "for"),
                ident("x"),
                leaf(Rule::In, "in"),
                value(string("\"a,b\"")),
                leaf(Rule::Split, "split"),
                value(string("\",\"")),
                value(string("\"$x\"")),
            ],
        )],
    );
    match build_control(&split) {
        Some(ControlStatement::ForStatement(stmt)) => {
            assert_eq!(template_text(&stmt.list), "a,b");
            assert_eq!(stmt.split.as_ref().map(template_text), Some(",".to_string()));
            assert_eq!(template_text(&stmt.output), "x");
        }
        _ => panic!("a for statement was expected"),
    }
}

#[test]
fn for_statement_defaults_and_refusals() {
    let short = node(
        Rule::ControlStmt,
        "",
        vec![node(Rule::ForSplitStmt, "", vec![ident("x"), value(string("\"l\""))])],
    );
    match build_control(&short) {
        Some(ControlStatement::ForStatement(stmt)) => {
            assert_eq!(template_text(&stmt.list), "l");
            assert_eq!(stmt.split.as_ref().map(template_text), Some(" ".to_string()));
            assert_eq!(template_text(&stmt.output), "");
        }
        _ => panic!("a for statement was expected"),
    }
    let crowded = node(
        Rule::ControlStmt,
        "",
        vec![node(
            Rule::ForStmt,
            "",
            vec![value(string("a")), value(string("b")), value(string("c"))],
        )],
    );
    assert!(build_control(&crowded).is_none());
    let wrong = node(
        Rule::ControlStmt,
        "",
        vec![node(Rule::ForStmt, "", vec![leaf(Rule::If, "if")])],
    );
    assert!(build_control(&wrong).is_none());
    assert!(build_control(&leaf(Rule::ControlStmt, "")).is_none());
    assert!(build_control(&node(Rule::ControlStmt, "", vec![ident("x")])).is_none());
}

#[test]
fn branches_and_loops() {
    let make = |rule: Rule, inner: Vec<Pair>| node(Rule::ControlStmt, "", vec![node(rule, "", inner)]);
    match build_control(&make(
        Rule::IfStmt,
        vec![leaf(Rule::If, "if"), value(string("c")), value(string("o"))],
    )) {
        Some(ControlStatement::IfStatement(stmt)) => {
            assert_eq!(template_text(&stmt.condition), "c");
            assert_eq!(template_text(&stmt.output), "o");
        }
        _ => panic!(),
    }
    match build_control(&make(
        Rule::IfElseStmt,
        vec![
            leaf(Rule::If, "if"),
            value(string("c")),
            value(string("t")),
            leaf(Rule::Else, "else"),
            value(string("f")),
        ],
    )) {
        Some(ControlStatement::IfElseStatement(stmt)) => {
            assert_eq!(template_text(&stmt.condition), "c");
            assert_eq!(template_text(&stmt.output_true), "t");
            assert_eq!(template_text(&stmt.output_false), "f");
        }
        _ => panic!(),
    }
    match build_control(&make(
        Rule::WhileStmt,
        vec![leaf(Rule::While, "while"), value(string("c")), value(string("o"))],
    )) {
        Some(ControlStatement::WhileStatement(stmt)) => {
            assert_eq!(template_text(&stmt.condition), "c");
            assert_eq!(template_text(&stmt.output), "o");
        }
        _ => panic!(),
    }
    assert!(build_control(&make(Rule::IfStmt, vec![leaf(Rule::Else, "else")])).is_none());
    assert!(build_control(&make(Rule::IfStmt, vec![ident("x")])).is_none());
}

#[test]
fn open_statements() {
    match build_open(&command("put", vec![value(string("a")), value(string("b"))])) {
        Some(OpenStatement::CommandStmt(stmt)) => {
            assert_eq!(stmt.name, "put");
            assert_eq!(stmt.parameters.len(), 2);
            assert_eq!(template_text(&stmt.parameters[1].value), "b");
        }
        _ => panic!(),
    }
    let set = node(
        Rule::OpenStmt,
        "",
        vec![node(
            Rule::SetStmt,
            "",
            vec![ident("v"), leaf(Rule::Equals, "="), value(string("x"))],
        )],
    );
    match build_open(&set) {
        Some(OpenStatement::SetStmt(stmt)) => {
            assert_eq!(stmt.variable, "v");
            assert_eq!(template_text(&stmt.value), "x");
        }
        _ => panic!(),
    }
    let ret = node(
        Rule::OpenStmt,
        "",
        vec![node(Rule::ReturnStmt, "", vec![leaf(Rule::Return, "return"), value(string("r"))])],
    );
    match build_open(&ret) {
        Some(OpenStatement::ReturnStmt(stmt)) => {
            assert_eq!(stmt.value.as_ref().map(template_text), Some("r".to_string()));
        }
        _ => panic!(),
    }
    let clear = node(
        Rule::OpenStmt,
        "",
        vec![node(Rule::ClearStmt, "", vec![leaf(Rule::Clear, "clear")])],
    );
    match build_open(&clear) {
        Some(OpenStatement::ClearStmt(stmt)) => assert!(stmt.value.is_none()),
        _ => panic!(),
    }
    let wrong = node(
        Rule::OpenStmt,
        "",
        vec![node(Rule::ClearStmt, "", vec![leaf(Rule::Return, "return")])],
    );
    assert!(build_open(&wrong).is_none());
    assert!(build_open(&command("put", vec![ident("x")])).is_none());
    assert!(build_open(&leaf(Rule::OpenStmt, "")).is_none());
}

#[test]
fn block_gathers_statements() {
    let block = node(
        Rule::Block,
        "",
        vec![
            leaf(Rule::LCurly, "{"),
            node(
                Rule::Executions,
                "",
                vec![
                    command("a", vec![]),
                    leaf(Rule::Semi, ";"),
                    node(Rule::Block, "{}", vec![]),
                    leaf(Rule::Semi, ";"),
                    command("b", vec![]),
                ],
            ),
            leaf(Rule::RCurly, "}"),
        ],
    );
    let built = build_block(&block).unwrap();
    assert_eq!(built.executions.len(), 3);
    assert!(matches!(built.executions[0], Execution::OpenStatement(_)));
    assert!(matches!(built.executions[1], Execution::Block(_)));
    assert!(matches!(built.executions[2], Execution::OpenStatement(_)));
    let wrong = node(Rule::Block, "", vec![node(Rule::Executions, "", vec![ident("x")])]);
    assert!(build_block(&wrong).is_none());
    assert!(build_block(&node(Rule::Block, "", vec![ident("x")])).is_none());
}

#[test]
fn function_takes_parameters_and_source() {
    let function = node(
        Rule::Function,
        "fn f(a, %b) {}",
        vec![
            leaf(Rule::Fn, "fn"),
            ident("f"),
            leaf(Rule::LPar, "("),
            node(
                Rule::FormalArgs,
                "a, %b",
                vec![ident("a"), leaf(Rule::Comma, ","), leaf(Rule::Destroy, "%"), ident("b")],
            ),
            leaf(Rule::RPar, ")"),
            node(Rule::Block, "{}", vec![]),
        ],
    );
    let built = build_function(&function).unwrap();
    assert_eq!(built.name, "f");
    assert_eq!(built.script, "fn f(a, %b) {}");
    assert_eq!(built.args.len(), 2);
    assert_eq!((built.args[0].name.as_str(), built.args[0].vector), ("a", false));
    assert_eq!((built.args[1].name.as_str(), built.args[1].vector), ("b", true));
    assert!(built.block.executions.is_empty());
    let wrong = node(Rule::Function, "", vec![leaf(Rule::Semi, ";")]);
    assert!(build_function(&wrong).is_none());
    let wrong = node(
        Rule::Function,
        "",
        vec![node(Rule::FormalArgs, "", vec![leaf(Rule::Semi, ";")])],
    );
    assert!(build_function(&wrong).is_none());
}

#[test]
fn program_separates_functions_and_statements() {
    let program = node(
        Rule::Program,
        "",
        vec![
            node(Rule::Function, "fn f() {}", vec![ident("f"), node(Rule::Block, "{}", vec![])]),
            command("f", vec![]),
            leaf(Rule::Semi, ";"),
            node(Rule::Block, "{}", vec![]),
            leaf(Rule::EOI, ""),
        ],
    );
    let built = build_program(&program).unwrap();
    assert_eq!(built.functions.len(), 1);
    assert_eq!(built.functions[0].name, "f");
    assert_eq!(built.executions.len(), 2);
    assert!(build_program(&node(Rule::Program, "", vec![ident("x")])).is_none());
    assert!(build_program(&node(Rule::Program, "", vec![])).is_some());
}
