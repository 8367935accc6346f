//! The syntax tree that the evaluator walks.

use vstd::prelude::*;
use super::format_string::{FormatString, Piece};

verus! {

/// A whole program: its function definitions and its top-level statements.
#[derive(Debug)]
pub struct Program {
    pub functions: Vec<Function>,
    pub executions: Vec<Execution>,
}

/// A function definition, with the source text it was read from.
#[derive(Debug)]
pub struct Function {
    pub name: String,
    pub args: Vec<FormalParameter>,
    pub block: Block,
    pub script: String,
}

/// A formal parameter; a `vector` one takes all the arguments that are left.
#[derive(Debug)]
pub struct FormalParameter {
    pub name: String,
    pub vector: bool,
}

/// One statement of a block.
#[derive(Debug)]
pub enum Execution {
    Block(Block),
    ControlStatement(ControlStatement),
    OpenStatement(OpenStatement),
}

/// A sequence of statements with a scope of its own.
#[derive(Debug)]
pub struct Block {
    pub executions: Vec<Execution>,
}

/// A loop or a branch.
#[derive(Debug)]
pub enum ControlStatement {
    ForStatement(ForStatement),
    IfStatement(IfStatement),
    IfElseStatement(IfElseStatement),
    WhileStatement(WhileStatement),
}

/// An assignment, a return, a clear or a call.
#[derive(Debug)]
pub enum OpenStatement {
    SetStmt(SetStatement),
    ReturnStmt(ReturnStatement),
    ClearStmt(ClearStatement),
    CommandStmt(CommandStatement),
}

/// An expression: a template, a block or a control statement.
#[derive(Debug)]
pub enum Value {
    String(FormatString),
    Block(Box<Block>),
    ControlStatement(Box<ControlStatement>),
}

/// `for variable in list [split separator] output`.
#[derive(Debug)]
pub struct ForStatement {
    pub variable: String,
    pub split: Option<Value>,
    pub list: Value,
    pub output: Value,
}

/// `if condition output`.
#[derive(Debug)]
pub struct IfStatement {
    pub condition: Value,
    pub output: Value,
}

/// `if condition output_true else output_false`.
#[derive(Debug)]
pub struct IfElseStatement {
    pub condition: Value,
    pub output_true: Value,
    pub output_false: Value,
}

/// `while condition output`.
#[derive(Debug)]
pub struct WhileStatement {
    pub condition: Value,
    pub output: Value,
}

/// `variable = value`.
#[derive(Debug)]
pub struct SetStatement {
    pub variable: String,
    pub value: Value,
}

/// `return [value]`.
#[derive(Debug)]
pub struct ReturnStatement {
    pub value: Option<Value>,
}

/// `clear [value]`.
#[derive(Debug)]
pub struct ClearStatement {
    pub value: Option<Value>,
}

/// A call of a function by name.
#[derive(Debug)]
pub struct CommandStatement {
    pub name: String,
    pub parameters: Vec<ActualParameter>,
}

/// One argument of a call.
#[derive(Debug)]
pub struct ActualParameter {
    pub value: Value,
}

impl FormalParameter {
    /// A parameter that takes one argument.
    pub fn new(name: &str) -> (res: FormalParameter)
        ensures
            res.name@ == name@,
            !res.vector,
    {
        FormalParameter { name: name.to_owned(), vector: false }
    }

    /// A parameter that takes all the arguments that are left.
    pub fn new_vector(name: &str) -> (res: FormalParameter)
        ensures
            res.name@ == name@,
            res.vector,
    {
        FormalParameter { name: name.to_owned(), vector: true }
    }
}

impl Clone for FormalParameter {
    fn clone(&self) -> (res: Self)
        ensures
            res == *self,
    {
        FormalParameter { name: self.name.clone(), vector: self.vector }
    }
}

/// A template as a plain value.
pub struct TemplateView {
    pub text: Seq<char>,
    pub pieces: Seq<Piece>,
}

/// A [`Value`] as a plain value.
pub enum ValueView {
    String(TemplateView),
    Block(Box<BlockView>),
    ControlStatement(Box<ControlStatementView>),
}

/// A [`Block`] as a plain value.
pub struct BlockView {
    pub executions: Seq<ExecutionView>,
}

/// An [`Execution`] as a plain value.
pub enum ExecutionView {
    Block(BlockView),
    ControlStatement(ControlStatementView),
    OpenStatement(OpenStatementView),
}

/// A [`ControlStatement`] as a plain value.
pub enum ControlStatementView {
    ForStatement(ForStatementView),
    IfStatement(IfStatementView),
    IfElseStatement(IfElseStatementView),
    WhileStatement(WhileStatementView),
}

/// An [`OpenStatement`] as a plain value.
pub enum OpenStatementView {
    SetStmt(SetStatementView),
    ReturnStmt(ReturnStatementView),
    ClearStmt(ClearStatementView),
    CommandStmt(CommandStatementView),
}

/// A [`ForStatement`] as a plain value.
pub struct ForStatementView {
    pub variable: Seq<char>,
    pub split: Option<ValueView>,
    pub list: ValueView,
    pub output: ValueView,
}

/// An [`IfStatement`] as a plain value.
pub struct IfStatementView {
    pub condition: ValueView,
    pub output: ValueView,
}

/// An [`IfElseStatement`] as a plain value.
pub struct IfElseStatementView {
    pub condition: ValueView,
    pub output_true: ValueView,
    pub output_false: ValueView,
}

/// A [`WhileStatement`] as a plain value.
pub struct WhileStatementView {
    pub condition: ValueView,
    pub output: ValueView,
}

/// A [`SetStatement`] as a plain value.
pub struct SetStatementView {
    pub variable: Seq<char>,
    pub value: ValueView,
}

/// A [`ReturnStatement`] as a plain value.
pub struct ReturnStatementView {
    pub value: Option<ValueView>,
}

/// A [`ClearStatement`] as a plain value.
pub struct ClearStatementView {
    pub value: Option<ValueView>,
}

/// A [`CommandStatement`] as a plain value: the name and the arguments.
pub struct CommandStatementView {
    pub name: Seq<char>,
    pub parameters: Seq<ValueView>,
}

/// A [`FormalParameter`] as a plain value.
pub struct FormalParameterView {
    pub name: Seq<char>,
    pub vector: bool,
}

/// A [`Function`] as a plain value.
pub struct FunctionView {
    pub name: Seq<char>,
    pub args: Seq<FormalParameterView>,
    pub block: BlockView,
    pub script: Seq<char>,
}

/// A [`Program`] as a plain value.
pub struct ProgramView {
    pub functions: Seq<FunctionView>,
    pub executions: Seq<ExecutionView>,
}

/// The template as a plain value.
pub open spec fn template_view(template: FormatString) -> TemplateView {
    TemplateView { text: template.text(), pieces: template.pieces() }
}

/// The expression as a plain value.
pub open spec fn value_view(value: Value) -> ValueView
    decreases value,
{
    match value {
        Value::String(template) => ValueView::String(template_view(template)),
        Value::Block(block) => ValueView::Block(Box::new(block_view(*block))),
        Value::ControlStatement(control) => ValueView::ControlStatement(
            Box::new(control_view(*control)),
        ),
    }
}

/// The optional expression as a plain value.
pub open spec fn optional_value_view(value: Option<Value>) -> Option<ValueView>
    decreases value,
{
    match value {
        Some(value) => Some(value_view(value)),
        None => None,
    }
}

/// The statements `executions[..upto]` as plain values.
pub open spec fn executions_view(executions: Seq<Execution>, upto: int) -> Seq<ExecutionView>
    decreases executions, upto,
{
    if upto <= 0 || upto > executions.len() {
        Seq::empty()
    } else {
        executions_view(executions, upto - 1).push(execution_view(executions[upto - 1]))
    }
}

/// The block as a plain value.
pub open spec fn block_view(block: Block) -> BlockView
    decreases block,
{
    BlockView { executions: executions_view(block.executions@, block.executions@.len() as int) }
}

/// The statement as a plain value.
pub open spec fn execution_view(execution: Execution) -> ExecutionView
    decreases execution,
{
    match execution {
        Execution::Block(block) => ExecutionView::Block(block_view(block)),
        Execution::ControlStatement(control) => ExecutionView::ControlStatement(
            control_view(control),
        ),
        Execution::OpenStatement(open) => ExecutionView::OpenStatement(open_view(open)),
    }
}

/// The control statement as a plain value.
pub open spec fn control_view(control: ControlStatement) -> ControlStatementView
    decreases control,
{
    match control {
        ControlStatement::ForStatement(stmt) => ControlStatementView::ForStatement(
            ForStatementView {
                variable: stmt.variable@,
                split: optional_value_view(stmt.split),
                list: value_view(stmt.list),
                output: value_view(stmt.output),
            },
        ),
        ControlStatement::IfStatement(stmt) => ControlStatementView::IfStatement(
            IfStatementView {
                condition: value_view(stmt.condition),
                output: value_view(stmt.output),
            },
        ),
        ControlStatement::IfElseStatement(stmt) => ControlStatementView::IfElseStatement(
            IfElseStatementView {
                condition: value_view(stmt.condition),
                output_true: value_view(stmt.output_true),
                output_false: value_view(stmt.output_false),
            },
        ),
        ControlStatement::WhileStatement(stmt) => ControlStatementView::WhileStatement(
            WhileStatementView {
                condition: value_view(stmt.condition),
                output: value_view(stmt.output),
            },
        ),
    }
}

/// The arguments `parameters[..upto]` as plain values.
pub open spec fn parameters_view(parameters: Seq<ActualParameter>, upto: int) -> Seq<ValueView>
    decreases parameters, upto,
{
    if upto <= 0 || upto > parameters.len() {
        Seq::empty()
    } else {
        parameters_view(parameters, upto - 1).push(value_view(parameters[upto - 1].value))
    }
}

/// The open statement as a plain value.
pub open spec fn open_view(open: OpenStatement) -> OpenStatementView
    decreases open,
{
    match open {
        OpenStatement::SetStmt(stmt) => OpenStatementView::SetStmt(
            SetStatementView { variable: stmt.variable@, value: value_view(stmt.value) },
        ),
        OpenStatement::ReturnStmt(stmt) => OpenStatementView::ReturnStmt(
            ReturnStatementView { value: optional_value_view(stmt.value) },
        ),
        OpenStatement::ClearStmt(stmt) => OpenStatementView::ClearStmt(
            ClearStatementView { value: optional_value_view(stmt.value) },
        ),
        OpenStatement::CommandStmt(stmt) => OpenStatementView::CommandStmt(
            CommandStatementView {
                name: stmt.name@,
                parameters: parameters_view(stmt.parameters@, stmt.parameters@.len() as int),
            },
        ),
    }
}

/// The parameters as plain values.
pub open spec fn formals_view(args: Seq<FormalParameter>) -> Seq<FormalParameterView> {
    Seq::new(
        args.len(),
        |i: int| FormalParameterView { name: args[i].name@, vector: args[i].vector },
    )
}

/// The function definition as a plain value.
pub open spec fn function_view(function: Function) -> FunctionView {
    FunctionView {
        name: function.name@,
        args: formals_view(function.args@),
        block: block_view(function.block),
        script: function.script@,
    }
}

/// The function definitions as plain values.
pub open spec fn functions_view(functions: Seq<Function>) -> Seq<FunctionView> {
    Seq::new(functions.len(), |i: int| function_view(functions[i]))
}

/// The program as a plain value.
pub open spec fn program_view(program: Program) -> ProgramView {
    ProgramView {
        functions: functions_view(program.functions@),
        executions: executions_view(program.executions@, program.executions@.len() as int),
    }
}

/// The statements as plain values, one for one.
pub proof fn lemma_executions_view(executions: Seq<Execution>, upto: int)
    requires
        0 <= upto <= executions.len(),
    ensures
        executions_view(executions, upto).len() == upto,
        forall|i: int|
            0 <= i < upto ==> #[trigger] executions_view(executions, upto)[i] == execution_view(
                executions[i],
            ),
    decreases upto,
{
    if upto > 0 {
        lemma_executions_view(executions, upto - 1);
    }
}

/// The arguments as plain values, one for one.
pub proof fn lemma_parameters_view(parameters: Seq<ActualParameter>, upto: int)
    requires
        0 <= upto <= parameters.len(),
    ensures
        parameters_view(parameters, upto).len() == upto,
        forall|i: int|
            0 <= i < upto ==> #[trigger] parameters_view(parameters, upto)[i] == value_view(
                parameters[i].value,
            ),
    decreases upto,
{
    if upto > 0 {
        lemma_parameters_view(parameters, upto - 1);
    }
}

/// A copy of the expression.
pub fn copy_value(value: &Value) -> (res: Value)
    ensures
        value_view(res) == value_view(*value),
    decreases value,
{
    match value {
        Value::String(template) => Value::String(template.clone()),
        Value::Block(block) => Value::Block(Box::new(copy_block(block))),
        Value::ControlStatement(control) => Value::ControlStatement(
            Box::new(copy_control(control)),
        ),
    }
}

/// A copy of the optional expression.
pub fn copy_optional_value(value: &Option<Value>) -> (res: Option<Value>)
    ensures
        optional_value_view(res) == optional_value_view(*value),
    decreases value,
{
    match value {
        Some(value) => Some(copy_value(value)),
        None => None,
    }
}

/// A copy of the block.
pub fn copy_block(block: &Block) -> (res: Block)
    ensures
        block_view(res) == block_view(*block),
    decreases block,
{
    let mut executions: Vec<Execution> = Vec::new();
    let mut k: usize = 0;
    while k < block.executions.len()
        invariant
            0 <= k <= block.executions.len(),
            executions@.len() == k,
            forall|i: int|
                0 <= i < k ==> execution_view(#[trigger] executions@[i]) == execution_view(
                    block.executions@[i],
                ),
        decreases block.executions.len() - k,
    {
        proof {
            vstd::std_specs::vec::axiom_vec_index_decreases(block.executions, k as int);
        }
        let copy = copy_execution(&block.executions[k]);
        executions.push(copy);
        k += 1;
    }
    proof {
        lemma_executions_view(executions@, executions@.len() as int);
        lemma_executions_view(block.executions@, block.executions@.len() as int);
        assert(executions_view(executions@, executions@.len() as int) =~= executions_view(
            block.executions@,
            block.executions@.len() as int,
        ));
    }
    Block { executions }
}

/// A copy of the statement.
pub fn copy_execution(execution: &Execution) -> (res: Execution)
    ensures
        execution_view(res) == execution_view(*execution),
    decreases execution,
{
    match execution {
        Execution::Block(block) => Execution::Block(copy_block(block)),
        Execution::ControlStatement(control) => Execution::ControlStatement(copy_control(control)),
        Execution::OpenStatement(open) => Execution::OpenStatement(copy_open(open)),
    }
}

/// A copy of the control statement.
pub fn copy_control(control: &ControlStatement) -> (res: ControlStatement)
    ensures
        control_view(res) == control_view(*control),
    decreases control,
{
    match control {
        ControlStatement::ForStatement(stmt) => ControlStatement::ForStatement(
            ForStatement {
                variable: stmt.variable.clone(),
                split: copy_optional_value(&stmt.split),
                list: copy_value(&stmt.list),
                output: copy_value(&stmt.output),
            },
        ),
        ControlStatement::IfStatement(stmt) => ControlStatement::IfStatement(
            IfStatement {
                condition: copy_value(&stmt.condition),
                output: copy_value(&stmt.output),
            },
        ),
        ControlStatement::IfElseStatement(stmt) => ControlStatement::IfElseStatement(
            IfElseStatement {
                condition: copy_value(&stmt.condition),
                output_true: copy_value(&stmt.output_true),
                output_false: copy_value(&stmt.output_false),
            },
        ),
        ControlStatement::WhileStatement(stmt) => ControlStatement::WhileStatement(
            WhileStatement {
                condition: copy_value(&stmt.condition),
                output: copy_value(&stmt.output),
            },
        ),
    }
}

/// A copy of the open statement.
pub fn copy_open(open: &OpenStatement) -> (res: OpenStatement)
    ensures
        open_view(res) == open_view(*open),
    decreases open,
{
    match open {
        OpenStatement::SetStmt(stmt) => OpenStatement::SetStmt(
            SetStatement { variable: stmt.variable.clone(), value: copy_value(&stmt.value) },
        ),
        OpenStatement::ReturnStmt(stmt) => OpenStatement::ReturnStmt(
            ReturnStatement { value: copy_optional_value(&stmt.value) },
        ),
        OpenStatement::ClearStmt(stmt) => OpenStatement::ClearStmt(
            ClearStatement { value: copy_optional_value(&stmt.value) },
        ),
        OpenStatement::CommandStmt(stmt) => {
            let mut parameters: Vec<ActualParameter> = Vec::new();
            let mut k: usize = 0;
            while k < stmt.parameters.len()
                invariant
                    0 <= k <= stmt.parameters.len(),
                    parameters@.len() == k,
                    *open == OpenStatement::CommandStmt(*stmt),
                    forall|i: int|
                        0 <= i < k ==> value_view((#[trigger] parameters@[i]).value)
                            == value_view(stmt.parameters@[i].value),
                decreases stmt.parameters.len() - k,
            {
                proof {
                    vstd::std_specs::vec::axiom_vec_index_decreases(stmt.parameters, k as int);
                    assert(decreases_to!(*open => open->CommandStmt_0));
                }
                let copy = copy_value(&stmt.parameters[k].value);
                parameters.push(ActualParameter { value: copy });
                k += 1;
            }
            proof {
                lemma_parameters_view(parameters@, parameters@.len() as int);
                lemma_parameters_view(stmt.parameters@, stmt.parameters@.len() as int);
                assert(parameters_view(parameters@, parameters@.len() as int) =~= parameters_view(
                    stmt.parameters@,
                    stmt.parameters@.len() as int,
                ));
            }
            OpenStatement::CommandStmt(CommandStatement { name: stmt.name.clone(), parameters })
        },
    }
}

/// A copy of the parameters.
pub fn copy_formals(args: &Vec<FormalParameter>) -> (res: Vec<FormalParameter>)
    ensures
        res@ == args@,
{
    let mut res: Vec<FormalParameter> = Vec::new();
    let mut k: usize = 0;
    while k < args.len()
        invariant
            0 <= k <= args.len(),
            res@ == args@.take(k as int),
        decreases args.len() - k,
    {
        res.push(args[k].clone());
        k += 1;
        assert(res@ =~= args@.take(k as int));
    }
    assert(args@.take(args@.len() as int) =~= args@);
    res
}

impl Clone for Value {
    fn clone(&self) -> (res: Self)
        ensures
            value_view(res) == value_view(*self),
    {
        copy_value(self)
    }
}

impl Clone for Block {
    fn clone(&self) -> (res: Self)
        ensures
            block_view(res) == block_view(*self),
    {
        copy_block(self)
    }
}

impl Clone for Execution {
    fn clone(&self) -> (res: Self)
        ensures
            execution_view(res) == execution_view(*self),
    {
        copy_execution(self)
    }
}

impl Clone for ControlStatement {
    fn clone(&self) -> (res: Self)
        ensures
            control_view(res) == control_view(*self),
    {
        copy_control(self)
    }
}

impl Clone for OpenStatement {
    fn clone(&self) -> (res: Self)
        ensures
            open_view(res) == open_view(*self),
    {
        copy_open(self)
    }
}

} // verus!
