//! From a parse tree to the syntax tree: what each kind of node becomes.
//!
//! A parse tree is what a grammar-driven parser hands over: nodes with the
//! rule that matched, the text that it matched and the nodes inside. A
//! builder answers `None` for a node that does not have the shape of its
//! rule.

use vstd::prelude::*;
use super::format_string::{template_pieces, template_text, FormatString};
use super::grammar::{
    block_view, control_view, execution_view, executions_view, formals_view, function_view,
    functions_view, lemma_executions_view, lemma_parameters_view, open_view, optional_value_view, parameters_view,
    program_view, value_view, ActualParameter, Block, BlockView, ClearStatement,
    ClearStatementView, CommandStatement, CommandStatementView, ControlStatement,
    ControlStatementView, Execution, ExecutionView, ForStatement, ForStatementView,
    FormalParameter, FormalParameterView, Function, FunctionView, IfElseStatement,
    IfElseStatementView, IfStatement, IfStatementView, OpenStatement, OpenStatementView, Program,
    ProgramView, ReturnStatement, ReturnStatementView, SetStatement, SetStatementView,
    TemplateView, Value, ValueView, WhileStatement, WhileStatementView,
};

verus! {

/// The rules of the grammar.
#[derive(Debug, Clone, Copy, PartialEq, Eq, Structural)]
pub enum Rule {
    EOI,
    Program,
    Function,
    FormalArgs,
    Block,
    Executions,
    ControlStmt,
    OpenStmt,
    Value,
    String,
    SQuoteString,
    DQuoteString,
    RawString,
    Identifier,
    ForStmt,
    ForSplitStmt,
    IfStmt,
    IfElseStmt,
    WhileStmt,
    SetStmt,
    ReturnStmt,
    ClearStmt,
    CommandStmt,
    CommandArgs,
    Fn,
    For,
    In,
    Split,
    If,
    Else,
    While,
    Return,
    Clear,
    LPar,
    RPar,
    LCurly,
    RCurly,
    Comma,
    Semi,
    Equals,
    Destroy,
}

/// A node of a parse tree.
#[derive(Debug)]
pub struct Pair {
    /// The rule that matched.
    pub rule: Rule,
    /// The text that the rule matched.
    pub text: String,
    /// The nodes of the rules that matched inside.
    pub inner: Vec<Pair>,
}

/// The template without text and without pieces.
pub open spec fn empty_template() -> TemplateView {
    TemplateView { text: Seq::empty(), pieces: Seq::empty() }
}

/// The expression that stands where a statement gives none.
pub open spec fn default_value() -> ValueView {
    ValueView::String(empty_template())
}

/// The separator that stands where a `for` with `split` gives none: a space.
pub open spec fn default_split() -> ValueView {
    ValueView::String(TemplateView { text: seq![' '], pieces: Seq::empty() })
}

/// The expression `index` of `values`, or the default where there is none.
pub open spec fn nth_value(values: Seq<ValueView>, index: int) -> ValueView {
    if 0 <= index < values.len() {
        values[index]
    } else {
        default_value()
    }
}

/// The expressions as plain values.
pub open spec fn values_view(values: Seq<Value>) -> Seq<ValueView> {
    Seq::new(values.len(), |i: int| value_view(values[i]))
}

/// The keywords and signs that a statement of the kind `kind` passes over.
pub open spec fn skips(kind: Rule, rule: Rule) -> bool {
    match kind {
        Rule::ForStmt => rule == Rule::For || rule == Rule::In || rule == Rule::Split,
        Rule::ForSplitStmt => rule == Rule::For || rule == Rule::In || rule == Rule::Split,
        Rule::IfStmt => rule == Rule::If,
        Rule::IfElseStmt => rule == Rule::If || rule == Rule::Else,
        Rule::WhileStmt => rule == Rule::While,
        Rule::SetStmt => rule == Rule::Equals,
        _ => false,
    }
}

/// Whether a statement of the kind `kind` names a variable.
pub open spec fn names(kind: Rule) -> bool {
    kind == Rule::ForStmt || kind == Rule::ForSplitStmt || kind == Rule::SetStmt
}

/// How many expressions a statement of the kind `kind` holds at most;
/// an assignment holds any number, of which the last counts.
pub open spec fn limit(kind: Rule) -> Option<int> {
    match kind {
        Rule::ForStmt => Some(2int),
        Rule::ForSplitStmt => Some(3int),
        Rule::IfStmt => Some(2int),
        Rule::IfElseStmt => Some(3int),
        Rule::WhileStmt => Some(2int),
        Rule::SetStmt => None,
        _ => Some(0int),
    }
}

/// The name and the expressions of a statement.
pub struct Gathered {
    pub name: Seq<char>,
    pub values: Seq<ValueView>,
}

/// The template of a `String` node: what its text denotes, with variables
/// unless the node inside is a single-quoted string.
pub open spec fn template_of(entry: Pair) -> Option<TemplateView> {
    if entry.inner@.len() == 0 {
        None
    } else {
        let expand = entry.inner@[0].rule != Rule::SQuoteString;
        Some(
            TemplateView {
                text: template_text(entry.text@, expand),
                pieces: template_pieces(entry.text@, expand),
            },
        )
    }
}

/// The expression of a `Value` node: that of the first node inside.
pub open spec fn value_of(entry: Pair) -> Option<ValueView>
    decreases entry, 0int,
{
    if entry.inner@.len() == 0 {
        None
    } else {
        let first = entry.inner@[0];
        match first.rule {
            Rule::String => match template_of(first) {
                Some(template) => Some(ValueView::String(template)),
                None => None,
            },
            Rule::Block => match block_of(first) {
                Some(block) => Some(ValueView::Block(Box::new(block))),
                None => None,
            },
            Rule::ControlStmt => match control_of(first) {
                Some(control) => Some(ValueView::ControlStatement(Box::new(control))),
                None => None,
            },
            _ => None,
        }
    }
}

/// The name and the expressions that the nodes `inner[..upto]` of a
/// statement of the kind `kind` give: an identifier gives the name, a
/// value one more expression, keywords are passed over, and anything else
/// spoils the statement.
pub open spec fn gather_spec(inner: Seq<Pair>, upto: int, kind: Rule) -> Option<Gathered>
    decreases inner, upto,
{
    if upto <= 0 || upto > inner.len() {
        Some(Gathered { name: Seq::empty(), values: Seq::empty() })
    } else {
        match gather_spec(inner, upto - 1, kind) {
            None => None,
            Some(sofar) => {
                let pair = inner[upto - 1];
                if pair.rule == Rule::Identifier && names(kind) {
                    Some(Gathered { name: pair.text@, values: sofar.values })
                } else if pair.rule == Rule::Value {
                    if limit(kind) is None || sofar.values.len() < limit(kind)->0 {
                        match value_of(pair) {
                            Some(value) => Some(
                                Gathered { name: sofar.name, values: sofar.values.push(value) },
                            ),
                            None => None,
                        }
                    } else {
                        None
                    }
                } else if skips(kind, pair.rule) {
                    Some(sofar)
                } else {
                    None
                }
            },
        }
    }
}

/// The control statement of a `ControlStmt` node: that of the first node inside.
pub open spec fn control_of(entry: Pair) -> Option<ControlStatementView>
    decreases entry, 0int,
{
    if entry.inner@.len() == 0 {
        None
    } else {
        let first = entry.inner@[0];
        match gather_spec(first.inner@, first.inner@.len() as int, first.rule) {
            None => None,
            Some(parts) => match first.rule {
                Rule::ForStmt => Some(
                    ControlStatementView::ForStatement(
                        ForStatementView {
                            variable: parts.name,
                            split: None,
                            list: nth_value(parts.values, 0),
                            output: nth_value(parts.values, 1),
                        },
                    ),
                ),
                Rule::ForSplitStmt => Some(
                    ControlStatementView::ForStatement(
                        ForStatementView {
                            variable: parts.name,
                            split: Some(
                                if parts.values.len() > 1 {
                                    parts.values[1]
                                } else {
                                    default_split()
                                },
                            ),
                            list: nth_value(parts.values, 0),
                            output: nth_value(parts.values, 2),
                        },
                    ),
                ),
                Rule::IfStmt => Some(
                    ControlStatementView::IfStatement(
                        IfStatementView {
                            condition: nth_value(parts.values, 0),
                            output: nth_value(parts.values, 1),
                        },
                    ),
                ),
                Rule::IfElseStmt => Some(
                    ControlStatementView::IfElseStatement(
                        IfElseStatementView {
                            condition: nth_value(parts.values, 0),
                            output_true: nth_value(parts.values, 1),
                            output_false: nth_value(parts.values, 2),
                        },
                    ),
                ),
                Rule::WhileStmt => Some(
                    ControlStatementView::WhileStatement(
                        WhileStatementView {
                            condition: nth_value(parts.values, 0),
                            output: nth_value(parts.values, 1),
                        },
                    ),
                ),
                _ => None,
            },
        }
    }
}

/// What the nodes `inner[from..]` of a `return` or a `clear` give: the
/// expression of the first value, `Some(None)` where there is no value,
/// and `None` where a node is neither a value nor the keyword.
pub open spec fn optional_of(inner: Seq<Pair>, from: int, keyword: Rule) -> Option<Option<ValueView>>
    decreases inner, inner.len() - from,
{
    if from < 0 || from >= inner.len() {
        Some(None)
    } else if inner[from].rule == Rule::Value {
        match value_of(inner[from]) {
            Some(value) => Some(Some(value)),
            None => None,
        }
    } else if inner[from].rule == keyword {
        optional_of(inner, from + 1, keyword)
    } else {
        None
    }
}

/// The arguments that the nodes `inner[..upto]` of a `CommandArgs` node give.
pub open spec fn arguments_of(inner: Seq<Pair>, upto: int) -> Option<Seq<ValueView>>
    decreases inner, upto,
{
    if upto <= 0 || upto > inner.len() {
        Some(Seq::empty())
    } else {
        match arguments_of(inner, upto - 1) {
            None => None,
            Some(sofar) => if inner[upto - 1].rule == Rule::Value {
                match value_of(inner[upto - 1]) {
                    Some(value) => Some(sofar.push(value)),
                    None => None,
                }
            } else {
                None
            },
        }
    }
}

/// The call that the nodes `inner[..upto]` of a `CommandStmt` node give.
pub open spec fn command_of(inner: Seq<Pair>, upto: int) -> Option<CommandStatementView>
    decreases inner, upto,
{
    if upto <= 0 || upto > inner.len() {
        Some(CommandStatementView { name: Seq::empty(), parameters: Seq::empty() })
    } else {
        match command_of(inner, upto - 1) {
            None => None,
            Some(sofar) => {
                let pair = inner[upto - 1];
                if pair.rule == Rule::Identifier {
                    Some(CommandStatementView { name: pair.text@, parameters: sofar.parameters })
                } else if pair.rule == Rule::CommandArgs {
                    match arguments_of(pair.inner@, pair.inner@.len() as int) {
                        Some(more) => Some(
                            CommandStatementView {
                                name: sofar.name,
                                parameters: sofar.parameters + more,
                            },
                        ),
                        None => None,
                    }
                } else {
                    None
                }
            },
        }
    }
}

/// The open statement of an `OpenStmt` node: that of the first node inside.
pub open spec fn open_of(entry: Pair) -> Option<OpenStatementView>
    decreases entry, 0int,
{
    if entry.inner@.len() == 0 {
        None
    } else {
        let first = entry.inner@[0];
        match first.rule {
            Rule::CommandStmt => match command_of(first.inner@, first.inner@.len() as int) {
                Some(stmt) => Some(OpenStatementView::CommandStmt(stmt)),
                None => None,
            },
            Rule::SetStmt => match gather_spec(
                first.inner@,
                first.inner@.len() as int,
                Rule::SetStmt,
            ) {
                Some(parts) => Some(
                    OpenStatementView::SetStmt(
                        SetStatementView {
                            variable: parts.name,
                            value: if parts.values.len() > 0 {
                                parts.values.last()
                            } else {
                                default_value()
                            },
                        },
                    ),
                ),
                None => None,
            },
            Rule::ClearStmt => match optional_of(first.inner@, 0, Rule::Clear) {
                Some(value) => Some(OpenStatementView::ClearStmt(ClearStatementView { value })),
                None => None,
            },
            Rule::ReturnStmt => match optional_of(first.inner@, 0, Rule::Return) {
                Some(value) => Some(OpenStatementView::ReturnStmt(ReturnStatementView { value })),
                None => None,
            },
            _ => None,
        }
    }
}

/// The statement of a node that may stand in a list of statements; `Some(None)`
/// for a separator.
pub open spec fn statement_of(pair: Pair, separators: bool) -> Option<Option<ExecutionView>>
    decreases pair, 1int,
{
    match pair.rule {
        Rule::ControlStmt => match control_of(pair) {
            Some(control) => Some(Some(ExecutionView::ControlStatement(control))),
            None => None,
        },
        Rule::OpenStmt => match open_of(pair) {
            Some(open) => Some(Some(ExecutionView::OpenStatement(open))),
            None => None,
        },
        Rule::Block => match block_of(pair) {
            Some(block) => Some(Some(ExecutionView::Block(block))),
            None => None,
        },
        Rule::Semi => if separators {
            Some(None)
        } else {
            None
        },
        _ => None,
    }
}

/// The statements that the nodes `inner[..upto]` of an `Executions` node give.
pub open spec fn statements_of(inner: Seq<Pair>, upto: int) -> Option<Seq<ExecutionView>>
    decreases inner, upto,
{
    if upto <= 0 || upto > inner.len() {
        Some(Seq::empty())
    } else {
        match statements_of(inner, upto - 1) {
            None => None,
            Some(sofar) => match statement_of(inner[upto - 1], true) {
                Some(Some(statement)) => Some(sofar.push(statement)),
                Some(None) => Some(sofar),
                None => None,
            },
        }
    }
}

/// The statements that the nodes `inner[..upto]` of a `Block` node give.
pub open spec fn block_parts(inner: Seq<Pair>, upto: int) -> Option<Seq<ExecutionView>>
    decreases inner, upto,
{
    if upto <= 0 || upto > inner.len() {
        Some(Seq::empty())
    } else {
        match block_parts(inner, upto - 1) {
            None => None,
            Some(sofar) => {
                let pair = inner[upto - 1];
                if pair.rule == Rule::Executions {
                    match statements_of(pair.inner@, pair.inner@.len() as int) {
                        Some(more) => Some(sofar + more),
                        None => None,
                    }
                } else if pair.rule == Rule::LCurly || pair.rule == Rule::RCurly {
                    Some(sofar)
                } else {
                    None
                }
            },
        }
    }
}

/// The block of a `Block` node.
pub open spec fn block_of(entry: Pair) -> Option<BlockView>
    decreases entry, 0int,
{
    match block_parts(entry.inner@, entry.inner@.len() as int) {
        Some(executions) => Some(BlockView { executions }),
        None => None,
    }
}

/// The parameters that the nodes of `FormalArgs` nodes give, and whether
/// the sign of a vector parameter was seen.
pub struct Formals {
    pub args: Seq<FormalParameterView>,
    pub destroy: bool,
}

/// The parameters that the nodes `inner[..upto]` of a `FormalArgs` node
/// give: each identifier is a parameter, and a vector parameter once the
/// sign was seen.
pub open spec fn formals_of(inner: Seq<Pair>, upto: int) -> Option<Formals>
    decreases upto,
{
    if upto <= 0 || upto > inner.len() {
        Some(Formals { args: Seq::empty(), destroy: false })
    } else {
        match formals_of(inner, upto - 1) {
            None => None,
            Some(sofar) => {
                let pair = inner[upto - 1];
                if pair.rule == Rule::Identifier {
                    Some(
                        Formals {
                            args: sofar.args.push(
                                FormalParameterView { name: pair.text@, vector: sofar.destroy },
                            ),
                            destroy: sofar.destroy,
                        },
                    )
                } else if pair.rule == Rule::Destroy {
                    Some(Formals { args: sofar.args, destroy: true })
                } else if pair.rule == Rule::Comma {
                    Some(sofar)
                } else {
                    None
                }
            },
        }
    }
}

/// The function that the nodes `inner[..upto]` of a `Function` node with
/// the text `script` give.
pub open spec fn function_parts(inner: Seq<Pair>, upto: int, script: Seq<char>) -> Option<
    FunctionView,
>
    decreases upto,
{
    if upto <= 0 || upto > inner.len() {
        Some(
            FunctionView {
                name: Seq::empty(),
                args: Seq::empty(),
                block: BlockView { executions: Seq::empty() },
                script,
            },
        )
    } else {
        match function_parts(inner, upto - 1, script) {
            None => None,
            Some(sofar) => {
                let pair = inner[upto - 1];
                if pair.rule == Rule::Identifier {
                    Some(FunctionView { name: pair.text@, ..sofar })
                } else if pair.rule == Rule::FormalArgs {
                    match formals_of(pair.inner@, pair.inner@.len() as int) {
                        Some(formals) => Some(
                            FunctionView { args: sofar.args + formals.args, ..sofar },
                        ),
                        None => None,
                    }
                } else if pair.rule == Rule::Block {
                    match block_of(pair) {
                        Some(block) => Some(FunctionView { block, ..sofar }),
                        None => None,
                    }
                } else if pair.rule == Rule::Fn || pair.rule == Rule::LPar || pair.rule
                    == Rule::RPar {
                    Some(sofar)
                } else {
                    None
                }
            },
        }
    }
}

/// The function definition of a `Function` node.
pub open spec fn function_of(entry: Pair) -> Option<FunctionView> {
    function_parts(entry.inner@, entry.inner@.len() as int, entry.text@)
}

/// The program that the nodes `inner[..upto]` of a `Program` node give.
pub open spec fn program_parts(inner: Seq<Pair>, upto: int) -> Option<ProgramView>
    decreases upto,
{
    if upto <= 0 || upto > inner.len() {
        Some(ProgramView { functions: Seq::empty(), executions: Seq::empty() })
    } else {
        match program_parts(inner, upto - 1) {
            None => None,
            Some(sofar) => {
                let pair = inner[upto - 1];
                if pair.rule == Rule::Function {
                    match function_of(pair) {
                        Some(function) => Some(
                            ProgramView { functions: sofar.functions.push(function), ..sofar },
                        ),
                        None => None,
                    }
                } else if pair.rule == Rule::EOI || pair.rule == Rule::Semi {
                    Some(sofar)
                } else {
                    match statement_of(pair, false) {
                        Some(Some(statement)) => Some(
                            ProgramView { executions: sofar.executions.push(statement), ..sofar },
                        ),
                        _ => None,
                    }
                }
            },
        }
    }
}

/// The program of a `Program` node.
pub open spec fn program_of(entry: Pair) -> Option<ProgramView> {
    program_parts(entry.inner@, entry.inner@.len() as int)
}

/// Whether a statement of the kind `kind` passes over `rule`.
fn passes_over(kind: Rule, rule: Rule) -> (res: bool)
    ensures
        res == skips(kind, rule),
{
    match kind {
        Rule::ForStmt => rule == Rule::For || rule == Rule::In || rule == Rule::Split,
        Rule::ForSplitStmt => rule == Rule::For || rule == Rule::In || rule == Rule::Split,
        Rule::IfStmt => rule == Rule::If,
        Rule::IfElseStmt => rule == Rule::If || rule == Rule::Else,
        Rule::WhileStmt => rule == Rule::While,
        Rule::SetStmt => rule == Rule::Equals,
        _ => false,
    }
}

/// How many expressions a statement of the kind `kind` holds at most.
fn limit_of(kind: Rule) -> (res: Option<usize>)
    ensures
        match res {
            Some(n) => limit(kind) == Some(n as int),
            None => limit(kind) is None,
        },
{
    match kind {
        Rule::ForStmt => Some(2),
        Rule::ForSplitStmt => Some(3),
        Rule::IfStmt => Some(2),
        Rule::IfElseStmt => Some(3),
        Rule::WhileStmt => Some(2),
        Rule::SetStmt => None,
        _ => Some(0),
    }
}

/// The expression that stands where a statement gives none.
fn default_expression() -> (res: Value)
    ensures
        value_view(res) == default_value(),
{
    proof {
        reveal_strlit("");
        assert(""@ =~= Seq::<char>::empty());
    }
    Value::String(FormatString::raw(""))
}

/// The template of a `String` node.
pub fn build_template(entry: &Pair) -> (res: Option<FormatString>)
    ensures
        match res {
            Some(template) => template_of(*entry) == Some(
                super::grammar::template_view(template),
            ),
            None => template_of(*entry) is None,
        },
{
    if entry.inner.len() == 0 {
        None
    } else {
        let expand = entry.inner[0].rule != Rule::SQuoteString;
        Some(FormatString::parse(entry.text.as_str(), expand))
    }
}

/// The expression of a `Value` node.
pub fn build_value(entry: &Pair) -> (res: Option<Value>)
    ensures
        match res {
            Some(value) => value_of(*entry) == Some(value_view(value)),
            None => value_of(*entry) is None,
        },
    decreases entry, 0int,
{
    if entry.inner.len() == 0 {
        return None;
    }
    proof {
        vstd::std_specs::vec::axiom_vec_index_decreases(entry.inner, 0);
    }
    let first = &entry.inner[0];
    match first.rule {
        Rule::String => match build_template(first) {
            Some(template) => Some(Value::String(template)),
            None => None,
        },
        Rule::Block => match build_block(first) {
            Some(block) => Some(Value::Block(Box::new(block))),
            None => None,
        },
        Rule::ControlStmt => match build_control(first) {
            Some(control) => Some(Value::ControlStatement(Box::new(control))),
            None => None,
        },
        _ => None,
    }
}

/// The name and the expressions of a statement of the kind `kind`.
#[verifier::loop_isolation(false)]
fn gather(entry: &Pair, kind: Rule) -> (res: Option<(String, Vec<Value>)>)
    ensures
        match res {
            Some(parts) => gather_spec(entry.inner@, entry.inner@.len() as int, kind) == Some(
                Gathered { name: parts.0@, values: values_view(parts.1@) },
            ) && (limit(kind) matches Some(n) ==> parts.1@.len() <= n),
            None => gather_spec(entry.inner@, entry.inner@.len() as int, kind) is None,
        },
    decreases entry, 0int,
{
    let mut name = String::new();
    let mut values: Vec<Value> = Vec::new();
    let most = limit_of(kind);
    let named = kind == Rule::ForStmt || kind == Rule::ForSplitStmt || kind == Rule::SetStmt;
    let mut k: usize = 0;
    proof {
        assert(values_view(values@) =~= Seq::empty());
    }
    while k < entry.inner.len()
        invariant
            0 <= k <= entry.inner.len(),
            named == names(kind),
            match most {
                Some(n) => limit(kind) == Some(n as int),
                None => limit(kind) is None,
            },
            gather_spec(entry.inner@, k as int, kind) == Some(
                Gathered { name: name@, values: values_view(values@) },
            ),
            limit(kind) matches Some(n) ==> values@.len() <= n,
        decreases entry.inner.len() - k,
    {
        let pair = &entry.inner[k];
        let ghost before = values_view(values@);
        if pair.rule == Rule::Identifier && named {
            name = pair.text.clone();
        } else if pair.rule == Rule::Value {
            let room = match most {
                Some(n) => values.len() < n,
                None => true,
            };
            if !room {
                proof {
                    lemma_gather_spoiled(entry.inner@, k + 1, entry.inner@.len() as int, kind);
                }
                return None;
            }
            proof {
                vstd::std_specs::vec::axiom_vec_index_decreases(entry.inner, k as int);
            }
            match build_value(pair) {
                Some(value) => {
                    values.push(value);
                    proof {
                        assert(values_view(values@) =~= before.push(value_view(value)));
                    }
                },
                None => {
                    proof {
                        lemma_gather_spoiled(entry.inner@, k + 1, entry.inner@.len() as int, kind);
                    }
                    return None;
                },
            }
        } else if passes_over(kind, pair.rule) {
        } else {
            proof {
                lemma_gather_spoiled(entry.inner@, k + 1, entry.inner@.len() as int, kind);
            }
            return None;
        }
        k += 1;
    }
    Some((name, values))
}

/// A statement that is spoiled after some nodes stays spoiled.
proof fn lemma_gather_spoiled(inner: Seq<Pair>, at: int, upto: int, kind: Rule)
    requires
        0 <= at <= upto <= inner.len(),
        gather_spec(inner, at, kind) is None,
    ensures
        gather_spec(inner, upto, kind) is None,
    decreases upto - at,
{
    if at < upto {
        lemma_gather_spoiled(inner, at, upto - 1, kind);
    }
}

/// Takes the expression `index` out of `values`, which holds no
/// expression behind it; the default where it holds none there.
fn pick(values: &mut Vec<Value>, index: usize) -> (res: Value)
    requires
        old(values)@.len() <= index + 1,
    ensures
        value_view(res) == nth_value(values_view(old(values)@), index as int),
        final(values)@.len() == (if old(values)@.len() > index {
            index as int
        } else {
            old(values)@.len() as int
        }),
        values_view(final(values)@) == values_view(old(values)@).take(final(values)@.len() as int),
{
    let ghost all = values_view(values@);
    if values.len() > index {
        match values.pop() {
            Some(value) => {
                proof {
                    assert(values_view(values@) =~= all.take(index as int));
                }
                value
            },
            None => default_expression(),
        }
    } else {
        proof {
            assert(all.take(values@.len() as int) =~= all);
        }
        default_expression()
    }
}

/// The control statement of a `ControlStmt` node.
pub fn build_control(entry: &Pair) -> (res: Option<ControlStatement>)
    ensures
        match res {
            Some(control) => control_of(*entry) == Some(control_view(control)),
            None => control_of(*entry) is None,
        },
    decreases entry, 0int,
{
    if entry.inner.len() == 0 {
        return None;
    }
    proof {
        vstd::std_specs::vec::axiom_vec_index_decreases(entry.inner, 0);
    }
    let first = &entry.inner[0];
    let (name, mut values) = match gather(first, first.rule) {
        Some(parts) => parts,
        None => {
            return None;
        },
    };
    let ghost all = values_view(values@);
    match first.rule {
        Rule::ForStmt => {
            let output = pick(&mut values, 1);
            let list = pick(&mut values, 0);
            Some(
                ControlStatement::ForStatement(
                    ForStatement { variable: name, split: None, list, output },
                ),
            )
        },
        Rule::ForSplitStmt => {
            let output = pick(&mut values, 2);
            let split = if values.len() > 1 {
                pick(&mut values, 1)
            } else {
                proof {
                    reveal_strlit(" ");
                    assert(" "@ =~= seq![' ']);
                }
                Value::String(FormatString::raw(" "))
            };
            let list = pick(&mut values, 0);
            Some(
                ControlStatement::ForStatement(
                    ForStatement { variable: name, split: Some(split), list, output },
                ),
            )
        },
        Rule::IfStmt => {
            let output = pick(&mut values, 1);
            let condition = pick(&mut values, 0);
            Some(ControlStatement::IfStatement(IfStatement { condition, output }))
        },
        Rule::IfElseStmt => {
            let output_false = pick(&mut values, 2);
            let output_true = pick(&mut values, 1);
            let condition = pick(&mut values, 0);
            Some(
                ControlStatement::IfElseStatement(
                    IfElseStatement { condition, output_true, output_false },
                ),
            )
        },
        Rule::WhileStmt => {
            let output = pick(&mut values, 1);
            let condition = pick(&mut values, 0);
            Some(ControlStatement::WhileStatement(WhileStatement { condition, output }))
        },
        _ => None,
    }
}

/// The optional expression of a `return` or a `clear`.
#[verifier::loop_isolation(false)]
fn build_optional(entry: &Pair, keyword: Rule) -> (res: Option<Option<Value>>)
    ensures
        match res {
            Some(value) => optional_of(entry.inner@, 0, keyword) == Some(
                optional_value_view(value),
            ),
            None => optional_of(entry.inner@, 0, keyword) is None,
        },
    decreases entry, 0int,
{
    let mut k: usize = 0;
    while k < entry.inner.len()
        invariant
            0 <= k <= entry.inner.len(),
            optional_of(entry.inner@, 0, keyword) == optional_of(entry.inner@, k as int, keyword),
        decreases entry.inner.len() - k,
    {
        let pair = &entry.inner[k];
        if pair.rule == Rule::Value {
            proof {
                vstd::std_specs::vec::axiom_vec_index_decreases(entry.inner, k as int);
            }
            return match build_value(pair) {
                Some(value) => Some(Some(value)),
                None => None,
            };
        } else if pair.rule == keyword {
        } else {
            return None;
        }
        k += 1;
    }
    Some(None)
}

/// The arguments and the name of a `CommandStmt` node.
#[verifier::loop_isolation(false)]
fn build_command(entry: &Pair) -> (res: Option<CommandStatement>)
    ensures
        match res {
            Some(stmt) => command_of(entry.inner@, entry.inner@.len() as int) == Some(
                CommandStatementView {
                    name: stmt.name@,
                    parameters: parameters_view(stmt.parameters@, stmt.parameters@.len() as int),
                },
            ),
            None => command_of(entry.inner@, entry.inner@.len() as int) is None,
        },
    decreases entry, 0int,
{
    let mut name = String::new();
    let mut parameters: Vec<ActualParameter> = Vec::new();
    let mut k: usize = 0;
    proof {
        assert(parameters_view(parameters@, 0) =~= Seq::empty());
    }
    while k < entry.inner.len()
        invariant
            0 <= k <= entry.inner.len(),
            command_of(entry.inner@, k as int) == Some(
                CommandStatementView {
                    name: name@,
                    parameters: parameters_view(parameters@, parameters@.len() as int),
                },
            ),
        decreases entry.inner.len() - k,
    {
        let pair = &entry.inner[k];
        proof {
            vstd::std_specs::vec::axiom_vec_index_decreases(entry.inner, k as int);
        }
        if pair.rule == Rule::Identifier {
            name = pair.text.clone();
        } else if pair.rule == Rule::CommandArgs {
            let ghost before = parameters_view(parameters@, parameters@.len() as int);
            let mut i: usize = 0;
            proof {
                assert(before + Seq::<ValueView>::empty() =~= before);
            }
            while i < pair.inner.len()
                invariant
                    0 <= i <= pair.inner.len(),
                    0 <= k < entry.inner.len(),
                    *pair == entry.inner@[k as int],
                    match arguments_of(pair.inner@, i as int) {
                        Some(more) => parameters_view(parameters@, parameters@.len() as int)
                            == before + more,
                        None => false,
                    },
                decreases pair.inner.len() - i,
            {
                let item = &pair.inner[i];
                if item.rule != Rule::Value {
                    proof {
                        lemma_arguments_spoiled(pair.inner@, i + 1, pair.inner@.len() as int);
                        lemma_command_spoiled(entry.inner@, k + 1, entry.inner@.len() as int);
                    }
                    return None;
                }
                proof {
                    vstd::std_specs::vec::axiom_vec_index_decreases(entry.inner, k as int);
                    vstd::std_specs::vec::axiom_vec_index_decreases(pair.inner, i as int);
                }
                match build_value(item) {
                    Some(value) => {
                        let ghost held = parameters@;
                        let ghost sofar = arguments_of(pair.inner@, i as int)->0;
                        parameters.push(ActualParameter { value });
                        proof {
                            lemma_parameters_view(held, held.len() as int);
                            lemma_parameters_view(parameters@, parameters@.len() as int);
                            assert(parameters_view(parameters@, parameters@.len() as int)
                                =~= parameters_view(held, held.len() as int).push(
                                value_view(value),
                            ));
                            assert(before + sofar.push(value_view(value)) =~= (before
                                + sofar).push(value_view(value)));
                        }
                    },
                    None => {
                        proof {
                            lemma_arguments_spoiled(pair.inner@, i + 1, pair.inner@.len() as int);
                            lemma_command_spoiled(entry.inner@, k + 1, entry.inner@.len() as int);
                        }
                        return None;
                    },
                }
                i += 1;
            }
        } else {
            proof {
                lemma_command_spoiled(entry.inner@, k + 1, entry.inner@.len() as int);
            }
            return None;
        }
        k += 1;
    }
    Some(CommandStatement { name, parameters })
}

/// Arguments that are spoiled after some nodes stay spoiled.
proof fn lemma_arguments_spoiled(inner: Seq<Pair>, at: int, upto: int)
    requires
        0 <= at <= upto <= inner.len(),
        arguments_of(inner, at) is None,
    ensures
        arguments_of(inner, upto) is None,
    decreases upto - at,
{
    if at < upto {
        lemma_arguments_spoiled(inner, at, upto - 1);
    }
}

/// A call that is spoiled after some nodes stays spoiled.
proof fn lemma_command_spoiled(inner: Seq<Pair>, at: int, upto: int)
    requires
        0 <= at <= upto <= inner.len(),
        command_of(inner, at) is None,
    ensures
        command_of(inner, upto) is None,
    decreases upto - at,
{
    if at < upto {
        lemma_command_spoiled(inner, at, upto - 1);
    }
}

/// The open statement of an `OpenStmt` node.
pub fn build_open(entry: &Pair) -> (res: Option<OpenStatement>)
    ensures
        match res {
            Some(open) => open_of(*entry) == Some(open_view(open)),
            None => open_of(*entry) is None,
        },
    decreases entry, 0int,
{
    if entry.inner.len() == 0 {
        return None;
    }
    proof {
        vstd::std_specs::vec::axiom_vec_index_decreases(entry.inner, 0);
    }
    let first = &entry.inner[0];
    match first.rule {
        Rule::CommandStmt => match build_command(first) {
            Some(stmt) => Some(OpenStatement::CommandStmt(stmt)),
            None => None,
        },
        Rule::SetStmt => match gather(first, Rule::SetStmt) {
            Some(parts) => {
                let (variable, mut values) = parts;
                let ghost all = values_view(values@);
                let value = match values.pop() {
                    Some(value) => {
                        proof {
                            assert(value_view(value) == all.last());
                        }
                        value
                    },
                    None => default_expression(),
                };
                Some(OpenStatement::SetStmt(SetStatement { variable, value }))
            },
            None => None,
        },
        Rule::ClearStmt => match build_optional(first, Rule::Clear) {
            Some(value) => Some(OpenStatement::ClearStmt(ClearStatement { value })),
            None => None,
        },
        Rule::ReturnStmt => match build_optional(first, Rule::Return) {
            Some(value) => Some(OpenStatement::ReturnStmt(ReturnStatement { value })),
            None => None,
        },
        _ => None,
    }
}

/// The statement of a node that may stand in a list of statements.
fn build_statement(pair: &Pair, separators: bool) -> (res: Option<Option<Execution>>)
    ensures
        match res {
            Some(Some(execution)) => statement_of(*pair, separators) == Some(
                Some(execution_view(execution)),
            ),
            Some(None) => statement_of(*pair, separators) == Some(None::<ExecutionView>),
            None => statement_of(*pair, separators) is None,
        },
    decreases pair, 1int,
{
    match pair.rule {
        Rule::ControlStmt => match build_control(pair) {
            Some(control) => Some(Some(Execution::ControlStatement(control))),
            None => None,
        },
        Rule::OpenStmt => match build_open(pair) {
            Some(open) => Some(Some(Execution::OpenStatement(open))),
            None => None,
        },
        Rule::Block => match build_block(pair) {
            Some(block) => Some(Some(Execution::Block(block))),
            None => None,
        },
        Rule::Semi => if separators {
            Some(None)
        } else {
            None
        },
        _ => None,
    }
}

/// Statements that are spoiled after some nodes stay spoiled.
proof fn lemma_statements_spoiled(inner: Seq<Pair>, at: int, upto: int)
    requires
        0 <= at <= upto <= inner.len(),
        statements_of(inner, at) is None,
    ensures
        statements_of(inner, upto) is None,
    decreases upto - at,
{
    if at < upto {
        lemma_statements_spoiled(inner, at, upto - 1);
    }
}

/// A block that is spoiled after some nodes stays spoiled.
proof fn lemma_block_spoiled(inner: Seq<Pair>, at: int, upto: int)
    requires
        0 <= at <= upto <= inner.len(),
        block_parts(inner, at) is None,
    ensures
        block_parts(inner, upto) is None,
    decreases upto - at,
{
    if at < upto {
        lemma_block_spoiled(inner, at, upto - 1);
    }
}

/// The block of a `Block` node.
#[verifier::loop_isolation(false)]
pub fn build_block(entry: &Pair) -> (res: Option<Block>)
    ensures
        match res {
            Some(block) => block_of(*entry) == Some(block_view(block)),
            None => block_of(*entry) is None,
        },
    decreases entry, 0int,
{
    let mut executions: Vec<Execution> = Vec::new();
    let mut k: usize = 0;
    proof {
        assert(executions_view(executions@, 0) =~= Seq::empty());
    }
    while k < entry.inner.len()
        invariant
            0 <= k <= entry.inner.len(),
            block_parts(entry.inner@, k as int) == Some(
                executions_view(executions@, executions@.len() as int),
            ),
        decreases entry.inner.len() - k,
    {
        let pair = &entry.inner[k];
        if pair.rule == Rule::Executions {
            let ghost before = executions_view(executions@, executions@.len() as int);
            let mut i: usize = 0;
            proof {
                assert(before + Seq::<ExecutionView>::empty() =~= before);
            }
            while i < pair.inner.len()
                invariant
                    0 <= i <= pair.inner.len(),
                    0 <= k < entry.inner.len(),
                    *pair == entry.inner@[k as int],
                    match statements_of(pair.inner@, i as int) {
                        Some(more) => executions_view(executions@, executions@.len() as int)
                            == before + more,
                        None => false,
                    },
                decreases pair.inner.len() - i,
            {
                proof {
                    vstd::std_specs::vec::axiom_vec_index_decreases(entry.inner, k as int);
                    vstd::std_specs::vec::axiom_vec_index_decreases(pair.inner, i as int);
                }
                match build_statement(&pair.inner[i], true) {
                    Some(Some(execution)) => {
                        let ghost held = executions@;
                        let ghost sofar = statements_of(pair.inner@, i as int)->0;
                        executions.push(execution);
                        proof {
                            lemma_executions_view(held, held.len() as int);
                            lemma_executions_view(executions@, executions@.len() as int);
                            assert(executions_view(executions@, executions@.len() as int)
                                =~= executions_view(held, held.len() as int).push(
                                execution_view(execution),
                            ));
                            assert(before + sofar.push(execution_view(execution)) =~= (before
                                + sofar).push(execution_view(execution)));
                        }
                    },
                    Some(None) => {},
                    None => {
                        proof {
                            lemma_statements_spoiled(pair.inner@, i + 1, pair.inner@.len() as int);
                            lemma_block_spoiled(entry.inner@, k + 1, entry.inner@.len() as int);
                        }
                        return None;
                    },
                }
                i += 1;
            }
        } else if pair.rule == Rule::LCurly || pair.rule == Rule::RCurly {
        } else {
            proof {
                lemma_block_spoiled(entry.inner@, k + 1, entry.inner@.len() as int);
            }
            return None;
        }
        k += 1;
    }
    Some(Block { executions })
}

/// Parameters that are spoiled after some nodes stay spoiled.
proof fn lemma_formals_spoiled(inner: Seq<Pair>, at: int, upto: int)
    requires
        0 <= at <= upto <= inner.len(),
        formals_of(inner, at) is None,
    ensures
        formals_of(inner, upto) is None,
    decreases upto - at,
{
    if at < upto {
        lemma_formals_spoiled(inner, at, upto - 1);
    }
}

/// A function that is spoiled after some nodes stays spoiled.
proof fn lemma_function_spoiled(inner: Seq<Pair>, at: int, upto: int, script: Seq<char>)
    requires
        0 <= at <= upto <= inner.len(),
        function_parts(inner, at, script) is None,
    ensures
        function_parts(inner, upto, script) is None,
    decreases upto - at,
{
    if at < upto {
        lemma_function_spoiled(inner, at, upto - 1, script);
    }
}

/// A program that is spoiled after some nodes stays spoiled.
proof fn lemma_program_spoiled(inner: Seq<Pair>, at: int, upto: int)
    requires
        0 <= at <= upto <= inner.len(),
        program_parts(inner, at) is None,
    ensures
        program_parts(inner, upto) is None,
    decreases upto - at,
{
    if at < upto {
        lemma_program_spoiled(inner, at, upto - 1);
    }
}

/// The function definition of a `Function` node.
#[verifier::loop_isolation(false)]
pub fn build_function(entry: &Pair) -> (res: Option<Function>)
    ensures
        match res {
            Some(function) => function_of(*entry) == Some(function_view(function)),
            None => function_of(*entry) is None,
        },
{
    let mut name = String::new();
    let mut args: Vec<FormalParameter> = Vec::new();
    let mut block = Block { executions: Vec::new() };
    let script = entry.text.clone();
    let mut k: usize = 0;
    proof {
        assert(formals_view(args@) =~= Seq::empty());
        assert(executions_view(block.executions@, 0) =~= Seq::empty());
    }
    while k < entry.inner.len()
        invariant
            0 <= k <= entry.inner.len(),
            script@ == entry.text@,
            function_parts(entry.inner@, k as int, entry.text@) == Some(
                FunctionView {
                    name: name@,
                    args: formals_view(args@),
                    block: block_view(block),
                    script: script@,
                },
            ),
        decreases entry.inner.len() - k,
    {
        let pair = &entry.inner[k];
        if pair.rule == Rule::Identifier {
            name = pair.text.clone();
        } else if pair.rule == Rule::FormalArgs {
            let ghost before = formals_view(args@);
            let mut destroy = false;
            let mut i: usize = 0;
            proof {
                assert(before + Seq::<FormalParameterView>::empty() =~= before);
            }
            while i < pair.inner.len()
                invariant
                    0 <= i <= pair.inner.len(),
                    match formals_of(pair.inner@, i as int) {
                        Some(more) => formals_view(args@) == before + more.args && more.destroy
                            == destroy,
                        None => false,
                    },
                decreases pair.inner.len() - i,
            {
                let item = &pair.inner[i];
                let ghost sofar = formals_of(pair.inner@, i as int)->0;
                if item.rule == Rule::Identifier {
                    let ghost held = formals_view(args@);
                    args.push(FormalParameter { name: item.text.clone(), vector: destroy });
                    proof {
                        let one = FormalParameterView { name: item.text@, vector: destroy };
                        assert(formals_view(args@) =~= held.push(one));
                        assert(before + sofar.args.push(one) =~= (before + sofar.args).push(one));
                    }
                } else if item.rule == Rule::Destroy {
                    destroy = true;
                } else if item.rule == Rule::Comma {
                } else {
                    proof {
                        lemma_formals_spoiled(pair.inner@, i + 1, pair.inner@.len() as int);
                        lemma_function_spoiled(
                            entry.inner@,
                            k + 1,
                            entry.inner@.len() as int,
                            entry.text@,
                        );
                    }
                    return None;
                }
                i += 1;
            }
        } else if pair.rule == Rule::Block {
            match build_block(pair) {
                Some(built) => {
                    block = built;
                },
                None => {
                    proof {
                        lemma_function_spoiled(
                            entry.inner@,
                            k + 1,
                            entry.inner@.len() as int,
                            entry.text@,
                        );
                    }
                    return None;
                },
            }
        } else if pair.rule == Rule::Fn || pair.rule == Rule::LPar || pair.rule == Rule::RPar {
        } else {
            proof {
                lemma_function_spoiled(
                    entry.inner@,
                    k + 1,
                    entry.inner@.len() as int,
                    entry.text@,
                );
            }
            return None;
        }
        k += 1;
    }
    Some(Function { name, args, block, script })
}

/// The program of a `Program` node.
#[verifier::loop_isolation(false)]
pub fn build_program(entry: &Pair) -> (res: Option<Program>)
    ensures
        match res {
            Some(program) => program_of(*entry) == Some(program_view(program)),
            None => program_of(*entry) is None,
        },
{
    let mut functions: Vec<Function> = Vec::new();
    let mut executions: Vec<Execution> = Vec::new();
    let mut k: usize = 0;
    proof {
        assert(functions_view(functions@) =~= Seq::empty());
        assert(executions_view(executions@, 0) =~= Seq::empty());
    }
    while k < entry.inner.len()
        invariant
            0 <= k <= entry.inner.len(),
            program_parts(entry.inner@, k as int) == Some(
                ProgramView {
                    functions: functions_view(functions@),
                    executions: executions_view(executions@, executions@.len() as int),
                },
            ),
        decreases entry.inner.len() - k,
    {
        let pair = &entry.inner[k];
        if pair.rule == Rule::Function {
            match build_function(pair) {
                Some(function) => {
                    let ghost held = functions_view(functions@);
                    functions.push(function);
                    proof {
                        assert(functions_view(functions@) =~= held.push(function_view(function)));
                    }
                },
                None => {
                    proof {
                        lemma_program_spoiled(entry.inner@, k + 1, entry.inner@.len() as int);
                    }
                    return None;
                },
            }
        } else if pair.rule == Rule::EOI || pair.rule == Rule::Semi {
        } else {
            match build_statement(pair, false) {
                Some(Some(execution)) => {
                    let ghost held = executions@;
                    executions.push(execution);
                    proof {
                        lemma_executions_view(held, held.len() as int);
                        lemma_executions_view(executions@, executions@.len() as int);
                        assert(executions_view(executions@, executions@.len() as int)
                            =~= executions_view(held, held.len() as int).push(
                            execution_view(execution),
                        ));
                    }
                },
                _ => {
                    proof {
                        lemma_program_spoiled(entry.inner@, k + 1, entry.inner@.len() as int);
                    }
                    return None;
                },
            }
        }
        k += 1;
    }
    Some(Program { functions, executions })
}

} // verus!
