//! The evaluator as a machine: a control, a stack of frames that wait for
//! the result of what they started, and the scopes.
//!
//! One step is a function of the machine's state alone. Where a call
//! reaches a function of the host, the step hands the function and its
//! arguments to the driver, and the driver hands the result back.

use vstd::prelude::*;
use crate::parser::format_string::{FormatString, FormatStringPiece, Piece};
use crate::parser::grammar::{
    Block, CommandStatement, ControlStatement, Execution, ForStatement, FormalParameter,
    IfElseStatement, IfStatement, OpenStatement, SetStatement, Value, WhileStatement,
};
use super::functions::{
    overloads_of, resolve_spec, EntryView, FunctionLibrary, Resolution, Runnable,
};
use super::output::{join_outputs, joined, outputs_view, split_spec, Output, OutputView};
use super::scope::{Bindings, Scope, ScopeStack, ScopeStackView};
use super::{result_view, ExecutionError, ExecutionErrorView, Next, NextView};
use crate::text::texts;

verus! {

/// The empty text with status 0.
pub open spec fn truthy() -> OutputView {
    OutputView { text: Seq::empty(), status: 0 }
}

/// The empty text with status 1.
pub open spec fn falsy() -> OutputView {
    OutputView { text: Seq::empty(), status: 1 }
}

/// `first` with `second` appended: the texts one after the other, the
/// status of the second.
pub open spec fn appended(first: OutputView, second: OutputView) -> OutputView {
    OutputView { text: first.text + second.text, status: second.status }
}

/// The value of a template whose pieces from `from` on are still to be
/// added to `output`: a literal piece adds its text and makes the status
/// 0, a variable piece adds the value that its name denotes, and a name
/// that nothing binds aborts.
pub open spec fn template_value(
    pieces: Seq<Piece>,
    scopes: ScopeStackView,
    from: int,
    output: OutputView,
) -> NextView
    decreases pieces.len() - from,
{
    if from < 0 || from >= pieces.len() {
        NextView::Append(output)
    } else {
        match pieces[from] {
            Piece::Raw(text) => template_value(
                pieces,
                scopes,
                from + 1,
                appended(output, OutputView { text, status: 0 }),
            ),
            Piece::Variable(name) => match scopes.lookup(name) {
                Some(value) => template_value(pieces, scopes, from + 1, appended(output, value)),
                None => NextView::Abort(ExecutionErrorView::UndeclaredVariable(name)),
            },
        }
    }
}

/// One parameter bound to its value.
pub struct Binding {
    pub name: Seq<char>,
    pub value: OutputView,
}

/// The bindings of the parameters `formals[from..]` to the arguments: each
/// plain parameter takes the argument of its position, a vector parameter
/// takes all that are left and ends the list. `None` where a plain
/// parameter finds no argument.
pub open spec fn bind_spec(formals: Seq<FormalParameter>, outputs: Seq<OutputView>, from: int) -> Option<
    Seq<Binding>,
>
    decreases formals.len() - from,
{
    if from < 0 || from >= formals.len() {
        Some(Seq::empty())
    } else if formals[from].vector {
        Some(seq![Binding { name: formals[from].name@, value: joined(outputs.skip(from)) }])
    } else if from < outputs.len() {
        match bind_spec(formals, outputs, from + 1) {
            Some(rest) => Some(
                seq![Binding { name: formals[from].name@, value: outputs[from] }] + rest,
            ),
            None => None,
        }
    } else {
        None
    }
}

/// The scopes after `bindings[from..]` were declared one by one.
pub open spec fn declare_all(scopes: ScopeStackView, bindings: Seq<Binding>, from: int) -> ScopeStackView
    decreases bindings.len() - from,
{
    if from < 0 || from >= bindings.len() {
        scopes
    } else {
        declare_all(
            scopes.declare(bindings[from].name, bindings[from].value),
            bindings,
            from + 1,
        )
    }
}

/// What is evaluated next, as a plain value.
pub enum TaskView {
    Value(Value),
    Block(Block),
    Control(ControlStatement),
    Open(OpenStatement),
}

/// The task that runs a statement.
pub open spec fn task_of(execution: Execution) -> TaskView {
    match execution {
        Execution::Block(block) => TaskView::Block(block),
        Execution::ControlStatement(control) => TaskView::Control(control),
        Execution::OpenStatement(open) => TaskView::Open(open),
    }
}

/// A frame as a plain value.
#[allow(inconsistent_fields)]
pub enum FrameView {
    Statements { executions: Seq<Execution>, index: int, output: OutputView },
    Scoped,
    Assign { stmt: SetStatement },
    ReturnValue,
    ClearValue,
    Arguments { stmt: CommandStatement, outputs: Seq<OutputView> },
    Call,
    ForList { stmt: ForStatement },
    ForSplit { stmt: ForStatement, list: OutputView },
    ForBody { stmt: ForStatement, pieces: Seq<Seq<char>>, index: int, output: OutputView },
    IfCondition { stmt: IfStatement },
    IfElseCondition { stmt: IfElseStatement },
    WhileCondition { stmt: WhileStatement, output: OutputView },
    WhileBody { stmt: WhileStatement, output: OutputView },
}

/// The control as a plain value.
pub enum ControlView {
    Evaluate(TaskView),
    Deliver(NextView),
    Host,
    Idle,
}

/// What a step asks of the driver, as a plain value.
pub enum ActionView<B> {
    Continue,
    Invoke(B, Seq<OutputView>),
    Waiting,
    Finished(Result<OutputView, ExecutionErrorView>),
    Idle,
}

/// The machine as a plain value.
pub struct MachineView<B> {
    /// The registry that calls are resolved in.
    pub functions: Seq<EntryView<B>>,
    /// The scopes of the function that is running.
    pub scopes: ScopeStackView,
    /// The local frames of the callers, the outermost first.
    pub callers: Seq<Seq<Bindings>>,
    /// The frames that wait for a result, the innermost last.
    pub frames: Seq<FrameView>,
    /// What happens next.
    pub control: ControlView,
}

/// A machine after a step, and what the step asks of the driver.
pub struct StepView<B> {
    pub machine: MachineView<B>,
    pub action: ActionView<B>,
}

impl<B> MachineView<B> {
    /// The machine that goes on by itself.
    pub open spec fn proceed(self) -> StepView<B> {
        StepView { machine: self, action: ActionView::Continue }
    }

    /// The machine with the signal `next` on its way to the innermost frame.
    pub open spec fn deliver(self, next: NextView) -> MachineView<B> {
        MachineView { control: ControlView::Deliver(next), ..self }
    }

    /// The machine with `task` to evaluate.
    pub open spec fn evaluate(self, task: TaskView) -> MachineView<B> {
        MachineView { control: ControlView::Evaluate(task), ..self }
    }

    /// The machine with one more innermost frame.
    pub open spec fn with_frame(self, frame: FrameView) -> MachineView<B> {
        MachineView { frames: self.frames.push(frame), ..self }
    }

    /// The machine without its innermost frame.
    pub open spec fn without_frame(self) -> MachineView<B> {
        MachineView { frames: self.frames.drop_last(), ..self }
    }

    /// The machine with other scopes.
    pub open spec fn with_scopes(self, scopes: ScopeStackView) -> MachineView<B> {
        MachineView { scopes, ..self }
    }

    /// Starts the statement `index` of a list, or hands on the result of
    /// the list where no statement is left.
    pub open spec fn statements(
        self,
        executions: Seq<Execution>,
        index: int,
        output: OutputView,
    ) -> MachineView<B> {
        if 0 <= index < executions.len() {
            self.with_frame(FrameView::Statements { executions, index, output }).evaluate(
                task_of(executions[index]),
            )
        } else {
            self.deliver(NextView::Append(output))
        }
    }

    /// Starts the iteration `index` of a loop over `pieces` in a scope of
    /// its own that binds the loop variable, or hands on the result of the
    /// loop where no piece is left. The loop variable is declared in that
    /// scope, so a variable of the same name further out is shadowed, not
    /// rebound.
    pub open spec fn iterate(
        self,
        stmt: ForStatement,
        pieces: Seq<Seq<char>>,
        index: int,
        output: OutputView,
    ) -> MachineView<B> {
        if 0 <= index < pieces.len() {
            self.with_scopes(
                self.scopes.push().declare(
                    stmt.variable@,
                    OutputView { text: pieces[index], status: 0 },
                ),
            ).with_frame(FrameView::ForBody { stmt, pieces, index, output }).with_frame(
                FrameView::Scoped,
            ).evaluate(TaskView::Value(stmt.output))
        } else {
            self.deliver(NextView::Append(output))
        }
    }

    /// Calls the function that `stmt` names with the evaluated arguments.
    ///
    /// An unknown name and a name without an overload for the argument
    /// count abort. A function of the host is handed to the driver. A
    /// function of the script runs in a sibling scope stack, over the same
    /// global bindings, in a frame that binds its parameters.
    ///
    /// The parameters are declared in that frame, not assigned: a
    /// parameter that is named like a global variable shadows it for the
    /// call and leaves it as it is. (Binding by assignment would rebind
    /// the global variable instead.)
    pub open spec fn call(self, stmt: CommandStatement, outputs: Seq<OutputView>) -> StepView<B> {
        match resolve_spec(self.functions, stmt.name@, outputs.len() as usize) {
            Resolution::UnknownFunction => self.deliver(
                NextView::Abort(ExecutionErrorView::UndefinedFunction(stmt.name@)),
            ).proceed(),
            Resolution::NoOverload => self.deliver(
                NextView::Abort(
                    ExecutionErrorView::UndefinedOverload(stmt.name@, outputs.len() as usize),
                ),
            ).proceed(),
            Resolution::Found(at) => {
                let func = overloads_of(self.functions, stmt.name@)[at];
                match func.runnable {
                    Runnable::BuiltIn(host) => StepView {
                        machine: MachineView { control: ControlView::Host, ..self },
                        action: ActionView::Invoke(host, outputs),
                    },
                    Runnable::Block(block) => match bind_spec(func.args@, outputs, 0) {
                        None => self.deliver(
                            NextView::Abort(ExecutionErrorView::InternalError),
                        ).proceed(),
                        Some(bindings) => MachineView {
                            scopes: declare_all(self.scopes.sibling().push(), bindings, 0),
                            callers: self.callers.push(self.scopes.frames),
                            ..self
                        }.with_frame(FrameView::Call).evaluate(TaskView::Block(block)).proceed(),
                    },
                }
            },
        }
    }

    /// Starts the evaluation of `task`.
    pub open spec fn enter(self, task: TaskView) -> StepView<B> {
        match task {
            TaskView::Value(Value::String(template)) => self.deliver(
                template_value(template.pieces(), self.scopes, 0, truthy()),
            ).proceed(),
            TaskView::Value(Value::Block(block)) => self.evaluate(TaskView::Block(*block)).proceed(),
            TaskView::Value(Value::ControlStatement(control)) => self.evaluate(
                TaskView::Control(*control),
            ).proceed(),
            TaskView::Block(block) => self.with_scopes(self.scopes.push()).with_frame(
                FrameView::Scoped,
            ).statements(block.executions@, 0, truthy()).proceed(),
            TaskView::Control(ControlStatement::ForStatement(stmt)) => self.with_scopes(
                self.scopes.push(),
            ).with_frame(FrameView::Scoped).with_frame(FrameView::ForList { stmt }).evaluate(
                TaskView::Value(stmt.list),
            ).proceed(),
            TaskView::Control(ControlStatement::IfStatement(stmt)) => self.with_frame(
                FrameView::IfCondition { stmt },
            ).evaluate(TaskView::Value(stmt.condition)).proceed(),
            TaskView::Control(ControlStatement::IfElseStatement(stmt)) => self.with_frame(
                FrameView::IfElseCondition { stmt },
            ).evaluate(TaskView::Value(stmt.condition)).proceed(),
            TaskView::Control(ControlStatement::WhileStatement(stmt)) => self.with_frame(
                FrameView::WhileCondition { stmt, output: truthy() },
            ).evaluate(TaskView::Value(stmt.condition)).proceed(),
            TaskView::Open(OpenStatement::SetStmt(stmt)) => self.with_frame(
                FrameView::Assign { stmt },
            ).evaluate(TaskView::Value(stmt.value)).proceed(),
            TaskView::Open(OpenStatement::ReturnStmt(stmt)) => match stmt.value {
                Some(value) => self.with_frame(FrameView::ReturnValue).evaluate(
                    TaskView::Value(value),
                ).proceed(),
                None => self.deliver(NextView::Return(truthy())).proceed(),
            },
            TaskView::Open(OpenStatement::ClearStmt(stmt)) => match stmt.value {
                Some(value) => self.with_frame(FrameView::ClearValue).evaluate(
                    TaskView::Value(value),
                ).proceed(),
                None => self.deliver(NextView::Clear(truthy())).proceed(),
            },
            TaskView::Open(OpenStatement::CommandStmt(stmt)) => {
                if stmt.parameters@.len() > 0 {
                    self.with_frame(
                        FrameView::Arguments { stmt, outputs: Seq::empty() },
                    ).evaluate(TaskView::Value(stmt.parameters@[0].value)).proceed()
                } else {
                    self.call(stmt, Seq::empty())
                }
            },
        }
    }

    /// Hands the signal `next` to `frame`, which was the innermost frame
    /// of a machine that is now without it.
    pub open spec fn receive(self, frame: FrameView, next: NextView) -> StepView<B> {
        match frame {
            FrameView::Statements { executions, index, output } => {
                let told = if 0 <= index < executions.len() && !(executions[index]
                    is OpenStatement) {
                    next.supress()
                } else {
                    next
                };
                match told {
                    NextView::Proceed => self.statements(executions, index + 1, output).proceed(),
                    NextView::Append(out) => self.statements(
                        executions,
                        index + 1,
                        appended(output, out),
                    ).proceed(),
                    NextView::Clear(out) => self.statements(executions, index + 1, out).proceed(),
                    other => self.deliver(other).proceed(),
                }
            },
            FrameView::Scoped => {
                if self.scopes.frames.len() > 0 {
                    self.with_scopes(self.scopes.pop()).deliver(next).proceed()
                } else {
                    self.deliver(NextView::Abort(ExecutionErrorView::InternalError)).proceed()
                }
            },
            FrameView::Assign { stmt } => match next {
                NextView::Append(out) => self.with_scopes(
                    self.scopes.assign(stmt.variable@, out),
                ).deliver(NextView::Proceed).proceed(),
                other => self.deliver(other).proceed(),
            },
            FrameView::ReturnValue => match next {
                NextView::Append(out) => self.deliver(NextView::Return(out)).proceed(),
                NextView::Proceed => self.deliver(
                    NextView::Abort(ExecutionErrorView::InternalError),
                ).proceed(),
                other => self.deliver(other).proceed(),
            },
            FrameView::ClearValue => match next {
                NextView::Append(out) => self.deliver(NextView::Clear(out)).proceed(),
                NextView::Proceed => self.deliver(
                    NextView::Abort(ExecutionErrorView::InternalError),
                ).proceed(),
                other => self.deliver(other).proceed(),
            },
            FrameView::Arguments { stmt, outputs } => match next {
                NextView::Append(out) => {
                    let gathered = outputs.push(out);
                    if gathered.len() < stmt.parameters@.len() {
                        self.with_frame(
                            FrameView::Arguments { stmt, outputs: gathered },
                        ).evaluate(
                            TaskView::Value(stmt.parameters@[gathered.len() as int].value),
                        ).proceed()
                    } else {
                        self.call(stmt, gathered)
                    }
                },
                NextView::Proceed => self.deliver(
                    NextView::Abort(ExecutionErrorView::InternalError),
                ).proceed(),
                other => self.deliver(other).proceed(),
            },
            FrameView::Call => {
                if self.callers.len() > 0 {
                    MachineView {
                        scopes: ScopeStackView {
                            global: self.scopes.global,
                            frames: self.callers.last(),
                        },
                        callers: self.callers.drop_last(),
                        ..self
                    }.deliver(
                        match next {
                            NextView::Return(out) => NextView::Append(out),
                            other => other,
                        },
                    ).proceed()
                } else {
                    self.deliver(NextView::Abort(ExecutionErrorView::InternalError)).proceed()
                }
            },
            FrameView::ForList { stmt } => match next {
                NextView::Append(list) => match stmt.split {
                    Some(separator) => self.with_frame(FrameView::ForSplit { stmt, list }).evaluate(
                        TaskView::Value(separator),
                    ).proceed(),
                    None => self.iterate(stmt, split_spec(list.text, None), 0, truthy()).proceed(),
                },
                NextView::Proceed => self.deliver(
                    NextView::Abort(ExecutionErrorView::InternalError),
                ).proceed(),
                other => self.deliver(other).proceed(),
            },
            FrameView::ForSplit { stmt, list } => match next {
                NextView::Append(separator) => self.iterate(
                    stmt,
                    split_spec(list.text, Some(separator.text)),
                    0,
                    truthy(),
                ).proceed(),
                NextView::Proceed => self.deliver(
                    NextView::Abort(ExecutionErrorView::InternalError),
                ).proceed(),
                other => self.deliver(other).proceed(),
            },
            FrameView::ForBody { stmt, pieces, index, output } => match next {
                NextView::Append(out) => self.iterate(
                    stmt,
                    pieces,
                    index + 1,
                    appended(output, out),
                ).proceed(),
                NextView::Proceed => self.deliver(
                    NextView::Abort(ExecutionErrorView::InternalError),
                ).proceed(),
                other => self.deliver(other).proceed(),
            },
            FrameView::IfCondition { stmt } => match next {
                NextView::Append(condition) => {
                    if condition.status == 0 {
                        self.evaluate(TaskView::Value(stmt.output)).proceed()
                    } else {
                        self.deliver(NextView::Append(falsy())).proceed()
                    }
                },
                NextView::Proceed => self.deliver(
                    NextView::Abort(ExecutionErrorView::InternalError),
                ).proceed(),
                other => self.deliver(other).proceed(),
            },
            FrameView::IfElseCondition { stmt } => match next {
                NextView::Append(condition) => {
                    if condition.status == 0 {
                        self.evaluate(TaskView::Value(stmt.output_true)).proceed()
                    } else {
                        self.evaluate(TaskView::Value(stmt.output_false)).proceed()
                    }
                },
                NextView::Proceed => self.deliver(
                    NextView::Abort(ExecutionErrorView::InternalError),
                ).proceed(),
                other => self.deliver(other).proceed(),
            },
            FrameView::WhileCondition { stmt, output } => match next {
                NextView::Append(condition) => {
                    if condition.status == 0 {
                        self.with_scopes(self.scopes.push()).with_frame(
                            FrameView::WhileBody { stmt, output },
                        ).with_frame(FrameView::Scoped).evaluate(
                            TaskView::Value(stmt.output),
                        ).proceed()
                    } else {
                        self.deliver(NextView::Append(output)).proceed()
                    }
                },
                NextView::Proceed => self.deliver(
                    NextView::Abort(ExecutionErrorView::InternalError),
                ).proceed(),
                other => self.deliver(other).proceed(),
            },
            FrameView::WhileBody { stmt, output } => match next {
                NextView::Append(out) => self.with_frame(
                    FrameView::WhileCondition { stmt, output: appended(output, out) },
                ).evaluate(TaskView::Value(stmt.condition)).proceed(),
                NextView::Proceed => self.deliver(
                    NextView::Abort(ExecutionErrorView::InternalError),
                ).proceed(),
                other => self.deliver(other).proceed(),
            },
        }
    }

    /// One step of the machine.
    ///
    /// A task is entered. A signal goes to the innermost frame, and ends
    /// the execution where no frame is left. A machine that waits for the
    /// host, or that has ended, stays as it is.
    pub open spec fn step(self) -> StepView<B> {
        match self.control {
            ControlView::Evaluate(task) => self.enter(task),
            ControlView::Deliver(next) => {
                if self.frames.len() > 0 {
                    self.without_frame().receive(self.frames.last(), next)
                } else {
                    StepView {
                        machine: MachineView { control: ControlView::Idle, ..self },
                        action: ActionView::Finished(next.outcome()),
                    }
                }
            },
            ControlView::Host => StepView { machine: self, action: ActionView::Waiting },
            ControlView::Idle => StepView { machine: self, action: ActionView::Idle },
        }
    }

    /// The machine after the host handed back `result`: its value is
    /// appended, its error aborts. A machine that does not wait for the
    /// host stays as it is.
    pub open spec fn resume(self, result: Result<OutputView, ExecutionErrorView>) -> MachineView<B> {
        if self.control is Host {
            self.deliver(
                match result {
                    Ok(output) => NextView::Append(output),
                    Err(err) => NextView::Abort(err),
                },
            )
        } else {
            self
        }
    }

    /// The machine that is about to run `executions` as a program: over
    /// the global bindings alone, with no caller.
    pub open spec fn start(
        functions: Seq<EntryView<B>>,
        global: Bindings,
        executions: Seq<Execution>,
    ) -> MachineView<B> {
        MachineView {
            functions,
            scopes: ScopeStackView { global, frames: Seq::empty() },
            callers: Seq::empty(),
            frames: Seq::empty(),
            control: ControlView::Idle,
        }.statements(executions, 0, truthy())
    }
}

/// What is evaluated next.
pub enum Task<'a> {
    Value(&'a Value),
    Block(&'a Block),
    Control(&'a ControlStatement),
    Open(&'a OpenStatement),
}

impl<'a> View for Task<'a> {
    type V = TaskView;

    open spec fn view(&self) -> TaskView {
        match self {
            Task::Value(value) => TaskView::Value(**value),
            Task::Block(block) => TaskView::Block(**block),
            Task::Control(control) => TaskView::Control(**control),
            Task::Open(open) => TaskView::Open(**open),
        }
    }
}

/// What waits for the result of an evaluation that it started.
#[allow(inconsistent_fields)]
pub enum Frame<'a> {
    /// A list of statements, one of which is running.
    Statements { executions: &'a [Execution], index: usize, output: Output },
    /// A scope that is popped when the result passes.
    Scoped,
    /// An assignment whose value is being evaluated.
    Assign { stmt: &'a SetStatement },
    /// A `return` whose value is being evaluated.
    ReturnValue,
    /// A `clear` whose value is being evaluated.
    ClearValue,
    /// A call whose arguments are being evaluated.
    Arguments { stmt: &'a CommandStatement, outputs: Vec<Output> },
    /// A call whose body is running.
    Call,
    /// A `for` whose list is being evaluated.
    ForList { stmt: &'a ForStatement },
    /// A `for` whose separator is being evaluated.
    ForSplit { stmt: &'a ForStatement, list: Output },
    /// A `for` whose body is running for one piece.
    ForBody { stmt: &'a ForStatement, pieces: Vec<String>, index: usize, output: Output },
    /// An `if` whose condition is being evaluated.
    IfCondition { stmt: &'a IfStatement },
    /// An `if`-`else` whose condition is being evaluated.
    IfElseCondition { stmt: &'a IfElseStatement },
    /// A `while` whose condition is being evaluated.
    WhileCondition { stmt: &'a WhileStatement, output: Output },
    /// A `while` whose body is running.
    WhileBody { stmt: &'a WhileStatement, output: Output },
}

impl<'a> View for Frame<'a> {
    type V = FrameView;

    open spec fn view(&self) -> FrameView {
        match self {
            Frame::Statements { executions, index, output } => FrameView::Statements {
                executions: executions@,
                index: *index as int,
                output: output@,
            },
            Frame::Scoped => FrameView::Scoped,
            Frame::Assign { stmt } => FrameView::Assign { stmt: **stmt },
            Frame::ReturnValue => FrameView::ReturnValue,
            Frame::ClearValue => FrameView::ClearValue,
            Frame::Arguments { stmt, outputs } => FrameView::Arguments {
                stmt: **stmt,
                outputs: outputs_view(outputs@),
            },
            Frame::Call => FrameView::Call,
            Frame::ForList { stmt } => FrameView::ForList { stmt: **stmt },
            Frame::ForSplit { stmt, list } => FrameView::ForSplit { stmt: **stmt, list: list@ },
            Frame::ForBody { stmt, pieces, index, output } => FrameView::ForBody {
                stmt: **stmt,
                pieces: texts(pieces@),
                index: *index as int,
                output: output@,
            },
            Frame::IfCondition { stmt } => FrameView::IfCondition { stmt: **stmt },
            Frame::IfElseCondition { stmt } => FrameView::IfElseCondition { stmt: **stmt },
            Frame::WhileCondition { stmt, output } => FrameView::WhileCondition {
                stmt: **stmt,
                output: output@,
            },
            Frame::WhileBody { stmt, output } => FrameView::WhileBody {
                stmt: **stmt,
                output: output@,
            },
        }
    }
}

/// What happens next.
pub enum Control<'a> {
    /// A task is entered.
    Evaluate(Task<'a>),
    /// A signal goes to the innermost frame.
    Deliver(Next),
    /// A function of the host is running.
    Host,
    /// The execution has ended.
    Idle,
}

impl<'a> View for Control<'a> {
    type V = ControlView;

    open spec fn view(&self) -> ControlView {
        match self {
            Control::Evaluate(task) => ControlView::Evaluate(task@),
            Control::Deliver(next) => ControlView::Deliver(next@),
            Control::Host => ControlView::Host,
            Control::Idle => ControlView::Idle,
        }
    }
}

/// What a step asks of the driver.
pub enum Action<'a, B> {
    /// Step again.
    Continue,
    /// Run this function of the host on these arguments and hand the
    /// result to `resume`.
    Invoke(&'a B, Vec<Output>),
    /// The machine waits for `resume`.
    Waiting,
    /// The execution has ended with this result.
    Finished(Result<Output, ExecutionError>),
    /// The execution had ended before.
    Idle,
}

impl<'a, B> View for Action<'a, B> {
    type V = ActionView<B>;

    open spec fn view(&self) -> ActionView<B> {
        match self {
            Action::Continue => ActionView::Continue,
            Action::Invoke(host, outputs) => ActionView::Invoke(**host, outputs_view(outputs@)),
            Action::Waiting => ActionView::Waiting,
            Action::Finished(result) => ActionView::Finished(result_view(*result)),
            Action::Idle => ActionView::Idle,
        }
    }
}

/// The frames as plain values.
pub open spec fn frames_view(frames: Seq<Frame>) -> Seq<FrameView> {
    Seq::new(frames.len(), |i: int| frames[i]@)
}

/// The local frames of each suspended caller.
pub open spec fn callers_view(callers: Seq<ScopeStack>) -> Seq<Seq<Bindings>> {
    Seq::new(callers.len(), |i: int| callers[i]@.frames)
}

/// The evaluator of one execution.
pub struct Machine<'a, B> {
    functions: &'a FunctionLibrary<B>,
    scopes: ScopeStack,
    callers: Vec<ScopeStack>,
    frames: Vec<Frame<'a>>,
    control: Control<'a>,
}

impl<'a, B> View for Machine<'a, B> {
    type V = MachineView<B>;

    closed spec fn view(&self) -> MachineView<B> {
        MachineView {
            functions: self.functions@,
            scopes: self.scopes@,
            callers: callers_view(self.callers@),
            frames: frames_view(self.frames@),
            control: self.control@,
        }
    }
}

/// The task that runs a statement.
fn task_for<'a>(execution: &'a Execution) -> (res: Task<'a>)
    ensures
        res@ == task_of(*execution),
{
    match execution {
        Execution::Block(block) => Task::Block(block),
        Execution::ControlStatement(control) => Task::Control(control),
        Execution::OpenStatement(open) => Task::Open(open),
    }
}

/// Evaluates a template in `stack`: literal pieces add their text with a
/// truthy status, variable pieces add the value of the variable they name.
pub fn execute_string(stack: &ScopeStack, name: &FormatString) -> (res: Next)
    ensures
        res@ == template_value(name.pieces(), stack@, 0, truthy()),
{
    let mut output = Output::new_truthy();
    let mut iter = name.into_iter();
    let ghost pieces = name.pieces();
    loop
        invariant
            pieces == name.pieces(),
            iter.template() == *name,
            iter.position() <= pieces.len(),
            template_value(pieces, stack@, 0, truthy()) == template_value(
                pieces,
                stack@,
                iter.position() as int,
                output@,
            ),
        ensures
            template_value(pieces, stack@, 0, truthy()) == NextView::Append(output@),
        decreases pieces.len() - iter.position(),
    {
        match iter.next() {
            Some(FormatStringPiece::Raw(value)) => {
                let literal = Output::new(value.to_owned(), 0);
                output.append(&literal);
            },
            Some(FormatStringPiece::Variable(var)) => match stack.get_var(var) {
                Some(value) => {
                    output.append(value);
                },
                None => {
                    return Next::Abort(ExecutionError::UndeclaredVariable(var.to_owned()));
                },
            },
            None => {
                break ;
            },
        }
    }
    Next::Append(output)
}

/// The bindings as plain values.
pub open spec fn bindings_view(bindings: Seq<(String, Output)>) -> Seq<Binding> {
    Seq::new(bindings.len(), |i: int| Binding { name: bindings[i].0@, value: bindings[i].1@ })
}

/// `rest` after `done`, where there is a `rest`.
pub open spec fn after(done: Seq<Binding>, rest: Option<Seq<Binding>>) -> Option<Seq<Binding>> {
    match rest {
        Some(rest) => Some(done + rest),
        None => None,
    }
}

/// Binds the parameters to the arguments.
#[verifier::loop_isolation(false)]
fn bind(formals: &Vec<FormalParameter>, outputs: Vec<Output>) -> (res: Option<Vec<(String, Output)>>)
    ensures
        match res {
            Some(bindings) => bind_spec(formals@, outputs_view(outputs@), 0) == Some(
                bindings_view(bindings@),
            ),
            None => bind_spec(formals@, outputs_view(outputs@), 0) is None,
        },
{
    let ghost all = outputs_view(outputs@);
    let mut rest = outputs;
    let mut bindings: Vec<(String, Output)> = Vec::new();
    let mut i: usize = 0;
    proof {
        assert(outputs_view(rest@) =~= all.skip(0));
        assert(bindings_view(bindings@) =~= Seq::<Binding>::empty());
        assert(after(Seq::empty(), bind_spec(formals@, all, 0)) == bind_spec(formals@, all, 0))
            by {
            if let Some(found) = bind_spec(formals@, all, 0) {
                assert(Seq::<Binding>::empty() + found =~= found);
            }
        }
    }
    while i < formals.len()
        invariant
            0 <= i <= formals.len(),
            i <= all.len(),
            outputs_view(rest@) == all.skip(i as int),
            bind_spec(formals@, all, 0) == after(
                bindings_view(bindings@),
                bind_spec(formals@, all, i as int),
            ),
        decreases formals.len() - i,
    {
        let ghost done = bindings_view(bindings@);
        if formals[i].vector {
            let value = join_outputs(rest.as_slice());
            bindings.push((formals[i].name.clone(), value));
            proof {
                assert(bindings_view(bindings@) =~= done + seq![
                    Binding { name: formals@[i as int].name@, value: joined(all.skip(i as int)) },
                ]);
            }
            return Some(bindings);
        } else if rest.len() > 0 {
            let ghost held = rest@;
            let value = rest.remove(0);
            bindings.push((formals[i].name.clone(), value));
            proof {
                let one = seq![Binding { name: formals@[i as int].name@, value: all[i as int] }];
                assert(outputs_view(held).len() == held.len());
                assert(i < all.len());
                assert(outputs_view(held)[0] == held[0]@);
                assert(value@ == all.skip(i as int)[0]);
                assert forall|k: int| 0 <= k < rest@.len() implies #[trigger] outputs_view(
                    rest@,
                )[k] == all.skip(i + 1)[k] by {
                    assert(rest@[k] == held[k + 1]);
                    assert(outputs_view(held)[k + 1] == held[k + 1]@);
                }
                assert(outputs_view(rest@) =~= all.skip(i + 1));
                assert(bindings_view(bindings@) =~= done + one);
                if let Some(found) = bind_spec(formals@, all, i + 1) {
                    assert(done + (one + found) =~= (done + one) + found);
                }
            }
        } else {
            return None;
        }
        i += 1;
    }
    proof {
        assert(bindings_view(bindings@) + Seq::<Binding>::empty() =~= bindings_view(bindings@));
    }
    Some(bindings)
}

/// Declares the bindings in `scopes`, first to last.
#[verifier::loop_isolation(false)]
fn declare_bindings(scopes: &mut ScopeStack, bindings: Vec<(String, Output)>)
    ensures
        final(scopes)@ == declare_all(old(scopes)@, bindings_view(bindings@), 0),
{
    let ghost all = bindings_view(bindings@);
    let mut rest = bindings;
    let ghost mut done: int = 0;
    proof {
        assert(bindings_view(rest@) =~= all.skip(0));
    }
    while rest.len() > 0
        invariant
            0 <= done <= all.len(),
            bindings_view(rest@) == all.skip(done),
            declare_all(old(scopes)@, all, 0) == declare_all(scopes@, all, done),
        decreases rest.len(),
    {
        let ghost held = rest@;
        let (name, value) = rest.remove(0);
        proof {
            assert(bindings_view(held).len() == held.len());
            assert(done < all.len());
            assert(bindings_view(held)[0] == (Binding { name: name@, value: value@ }));
            assert(all.skip(done)[0] == all[done]);
            assert forall|k: int| 0 <= k < rest@.len() implies #[trigger] bindings_view(rest@)[k]
                == all.skip(done + 1)[k] by {
                assert(rest@[k] == held[k + 1]);
                assert(bindings_view(held)[k + 1] == (Binding {
                    name: held[k + 1].0@,
                    value: held[k + 1].1@,
                }));
            }
            assert(bindings_view(rest@) =~= all.skip(done + 1));
        }
        scopes.declare_var(name.as_str(), value);
        proof {
            done = done + 1;
        }
    }
}

impl<'a, B> Machine<'a, B> {
    /// A machine that is about to run `executions` as a program, over the
    /// global bindings `global`.
    pub fn new(
        functions: &'a FunctionLibrary<B>,
        global: Scope,
        executions: &'a [Execution],
    ) -> (res: Machine<'a, B>)
        ensures
            res@ == MachineView::start(
                functions@,
                super::scope::scope_view(global),
                executions@,
            ),
    {
        let mut res = Machine {
            functions,
            scopes: ScopeStack::new(global),
            callers: Vec::new(),
            frames: Vec::new(),
            control: Control::Idle,
        };
        proof {
            assert(callers_view(res.callers@) =~= Seq::empty());
            assert(frames_view(res.frames@) =~= Seq::empty());
        }
        res.statements(executions, 0, Output::new_truthy());
        res
    }

    /// Gives up the machine and hands back the global map.
    pub fn into_global(self) -> (res: Scope)
        ensures
            super::scope::scope_view(res) == self@.scopes.global,
    {
        self.scopes.into_global()
    }

    /// Sends `next` to the innermost frame.
    fn deliver(&mut self, next: Next)
        ensures
            final(self)@ == old(self)@.deliver(next@),
    {
        self.control = Control::Deliver(next);
    }

    /// Sets `task` to be evaluated.
    fn evaluate(&mut self, task: Task<'a>)
        ensures
            final(self)@ == old(self)@.evaluate(task@),
    {
        self.control = Control::Evaluate(task);
    }

    /// Aborts with an internal error.
    fn fail(&mut self)
        ensures
            final(self)@ == old(self)@.deliver(NextView::Abort(ExecutionErrorView::InternalError)),
    {
        self.control = Control::Deliver(Next::Abort(ExecutionError::InternalError));
    }

    /// Adds an innermost frame.
    fn push_frame(&mut self, frame: Frame<'a>)
        ensures
            final(self)@ == old(self)@.with_frame(frame@),
    {
        self.frames.push(frame);
        assert(frames_view(self.frames@) =~= frames_view(old(self).frames@).push(frame@));
    }

    /// Takes the innermost frame.
    fn pop_frame(&mut self) -> (res: Option<Frame<'a>>)
        ensures
            match res {
                Some(frame) => old(self)@.frames.len() > 0 && frame@ == old(self)@.frames.last()
                    && final(self)@ == old(self)@.without_frame(),
                None => old(self)@.frames.len() == 0 && final(self)@ == old(self)@,
            },
    {
        let res = self.frames.pop();
        proof {
            if res is Some {
                assert(frames_view(self.frames@) =~= frames_view(old(self).frames@).drop_last());
            }
        }
        res
    }

    /// Enters a scope.
    fn push_scope(&mut self)
        ensures
            final(self)@ == old(self)@.with_scopes(old(self)@.scopes.push()),
    {
        self.scopes.push();
    }

    /// Starts the statement `index` of a list, or hands on its result.
    fn statements(&mut self, executions: &'a [Execution], index: usize, output: Output)
        ensures
            final(self)@ == old(self)@.statements(executions@, index as int, output@),
    {
        if index < executions.len() {
            self.push_frame(Frame::Statements { executions, index, output });
            self.evaluate(task_for(&executions[index]));
        } else {
            self.deliver(Next::Append(output));
        }
    }

    /// Starts the iteration `index` of a loop, or hands on its result.
    fn iterate(&mut self, stmt: &'a ForStatement, pieces: Vec<String>, index: usize, output: Output)
        ensures
            final(self)@ == old(self)@.iterate(
                *stmt,
                texts(pieces@),
                index as int,
                output@,
            ),
    {
        if index < pieces.len() {
            let piece = pieces[index].clone();
            self.scopes.push();
            self.scopes.declare_var(stmt.variable.as_str(), Output::new(piece, 0));
            self.push_frame(Frame::ForBody { stmt, pieces, index, output });
            self.push_frame(Frame::Scoped);
            self.evaluate(Task::Value(&stmt.output));
        } else {
            self.deliver(Next::Append(output));
        }
    }

    /// Calls the function that `stmt` names with the evaluated arguments.
    fn call(&mut self, stmt: &'a CommandStatement, outputs: Vec<Output>) -> (res: Action<'a, B>)
        ensures
            (StepView { machine: final(self)@, action: res@ }) == old(self)@.call(
                *stmt,
                outputs_view(outputs@),
            ),
    {
        let functions: &'a FunctionLibrary<B> = self.functions;
        match functions.resolve(stmt.name.as_str(), outputs.len()) {
            Err(err) => {
                self.deliver(Next::Abort(err));
                Action::Continue
            },
            Ok(func) => match &func.runnable {
                Runnable::BuiltIn(host) => {
                    self.control = Control::Host;
                    Action::Invoke(host, outputs)
                },
                Runnable::Block(block) => match bind(&func.args, outputs) {
                    None => {
                        self.fail();
                        Action::Continue
                    },
                    Some(bindings) => {
                        let mut callee = ScopeStack::call_frame(&mut self.scopes);
                        callee.push();
                        declare_bindings(&mut callee, bindings);
                        core::mem::swap(&mut self.scopes, &mut callee);
                        self.callers.push(callee);
                        proof {
                            assert(callers_view(self.callers@) =~= callers_view(
                                old(self).callers@,
                            ).push(old(self)@.scopes.frames));
                        }
                        self.push_frame(Frame::Call);
                        self.evaluate(Task::Block(block));
                        Action::Continue
                    },
                },
            },
        }
    }

    /// Starts the evaluation of `task`.
    fn enter(&mut self, task: Task<'a>) -> (res: Action<'a, B>)
        ensures
            (StepView { machine: final(self)@, action: res@ }) == old(self)@.enter(task@),
    {
        match task {
            Task::Value(Value::String(template)) => {
                let next = execute_string(&self.scopes, template);
                self.deliver(next);
                Action::Continue
            },
            Task::Value(Value::Block(block)) => {
                self.evaluate(Task::Block(block));
                Action::Continue
            },
            Task::Value(Value::ControlStatement(control)) => {
                self.evaluate(Task::Control(control));
                Action::Continue
            },
            Task::Block(block) => {
                self.push_scope();
                self.push_frame(Frame::Scoped);
                self.statements(block.executions.as_slice(), 0, Output::new_truthy());
                Action::Continue
            },
            Task::Control(ControlStatement::ForStatement(stmt)) => {
                self.push_scope();
                self.push_frame(Frame::Scoped);
                self.push_frame(Frame::ForList { stmt });
                self.evaluate(Task::Value(&stmt.list));
                Action::Continue
            },
            Task::Control(ControlStatement::IfStatement(stmt)) => {
                self.push_frame(Frame::IfCondition { stmt });
                self.evaluate(Task::Value(&stmt.condition));
                Action::Continue
            },
            Task::Control(ControlStatement::IfElseStatement(stmt)) => {
                self.push_frame(Frame::IfElseCondition { stmt });
                self.evaluate(Task::Value(&stmt.condition));
                Action::Continue
            },
            Task::Control(ControlStatement::WhileStatement(stmt)) => {
                self.push_frame(Frame::WhileCondition { stmt, output: Output::new_truthy() });
                self.evaluate(Task::Value(&stmt.condition));
                Action::Continue
            },
            Task::Open(OpenStatement::SetStmt(stmt)) => {
                self.push_frame(Frame::Assign { stmt });
                self.evaluate(Task::Value(&stmt.value));
                Action::Continue
            },
            Task::Open(OpenStatement::ReturnStmt(stmt)) => {
                match &stmt.value {
                    Some(value) => {
                        self.push_frame(Frame::ReturnValue);
                        self.evaluate(Task::Value(value));
                    },
                    None => {
                        self.deliver(Next::Return(Output::new_truthy()));
                    },
                }
                Action::Continue
            },
            Task::Open(OpenStatement::ClearStmt(stmt)) => {
                match &stmt.value {
                    Some(value) => {
                        self.push_frame(Frame::ClearValue);
                        self.evaluate(Task::Value(value));
                    },
                    None => {
                        self.deliver(Next::Clear(Output::new_truthy()));
                    },
                }
                Action::Continue
            },
            Task::Open(OpenStatement::CommandStmt(stmt)) => {
                if stmt.parameters.len() > 0 {
                    let outputs: Vec<Output> = Vec::new();
                    proof {
                        assert(outputs_view(outputs@) =~= Seq::empty());
                    }
                    self.push_frame(Frame::Arguments { stmt, outputs });
                    self.evaluate(Task::Value(&stmt.parameters[0].value));
                    Action::Continue
                } else {
                    let outputs: Vec<Output> = Vec::new();
                    proof {
                        assert(outputs_view(outputs@) =~= Seq::empty());
                    }
                    self.call(stmt, outputs)
                }
            },
        }
    }
}

impl<'a, B> Machine<'a, B> {
    /// A list of statements takes the result of the statement that ran:
    /// the value of a nested block or control statement is dropped, the
    /// value of an open statement is added, `Clear` replaces what was
    /// gathered, and `Return` and `Abort` end the list.
    fn receive_statements(
        &mut self,
        executions: &'a [Execution],
        index: usize,
        output: Output,
        next: Next,
    )
        ensures
            old(self)@.receive(
                FrameView::Statements { executions: executions@, index: index as int, output: output@ },
                next@,
            ) == final(self)@.proceed(),
    {
        let open = if index < executions.len() {
            match &executions[index] {
                Execution::OpenStatement(_) => true,
                _ => false,
            }
        } else {
            true
        };
        let told = if open {
            next
        } else {
            next.supress()
        };
        let mut output = output;
        match told {
            Next::Proceed => {},
            Next::Append(out) => {
                output.append(&out);
            },
            Next::Clear(out) => {
                output = out;
            },
            other => {
                self.deliver(other);
                return ;
            },
        }
        if index < executions.len() {
            self.statements(executions, index + 1, output);
        } else {
            self.deliver(Next::Append(output));
        }
    }

    /// A scope ends: its frame is popped and the result passes.
    fn receive_scoped(&mut self, next: Next)
        ensures
            old(self)@.receive(FrameView::Scoped, next@) == final(self)@.proceed(),
    {
        if self.scopes.depth() > 0 {
            self.scopes.pop();
            self.deliver(next);
        } else {
            self.fail();
        }
    }

    /// An assignment takes its value and is silent.
    fn receive_assign(&mut self, stmt: &'a SetStatement, next: Next)
        ensures
            old(self)@.receive(FrameView::Assign { stmt: *stmt }, next@) == final(self)@.proceed(),
    {
        match next {
            Next::Append(out) => {
                self.scopes.set_var(stmt.variable.as_str(), out);
                self.deliver(Next::Proceed);
            },
            other => {
                self.deliver(other);
            },
        }
    }

    /// A `return` takes its value.
    fn receive_return(&mut self, next: Next)
        ensures
            old(self)@.receive(FrameView::ReturnValue, next@) == final(self)@.proceed(),
    {
        match next {
            Next::Append(out) => {
                self.deliver(Next::Return(out));
            },
            Next::Proceed => {
                self.fail();
            },
            other => {
                self.deliver(other);
            },
        }
    }

    /// A `clear` takes its value.
    fn receive_clear(&mut self, next: Next)
        ensures
            old(self)@.receive(FrameView::ClearValue, next@) == final(self)@.proceed(),
    {
        match next {
            Next::Append(out) => {
                self.deliver(Next::Clear(out));
            },
            Next::Proceed => {
                self.fail();
            },
            other => {
                self.deliver(other);
            },
        }
    }

    /// A call takes the value of one argument, and goes on to the next
    /// argument or to the call itself.
    fn receive_argument(&mut self, stmt: &'a CommandStatement, outputs: Vec<Output>, next: Next) -> (res:
        Action<'a, B>)
        ensures
            old(self)@.receive(
                FrameView::Arguments { stmt: *stmt, outputs: outputs_view(outputs@) },
                next@,
            ) == (StepView { machine: final(self)@, action: res@ }),
    {
        match next {
            Next::Append(out) => {
                let mut gathered = outputs;
                gathered.push(out);
                proof {
                    assert(outputs_view(gathered@) =~= outputs_view(outputs@).push(out@));
                }
                let count = gathered.len();
                if count < stmt.parameters.len() {
                    self.push_frame(Frame::Arguments { stmt, outputs: gathered });
                    self.evaluate(Task::Value(&stmt.parameters[count].value));
                    Action::Continue
                } else {
                    self.call(stmt, gathered)
                }
            },
            Next::Proceed => {
                self.fail();
                Action::Continue
            },
            other => {
                self.deliver(other);
                Action::Continue
            },
        }
    }

    /// A call ends: the caller's scopes come back, and a `Return` of the
    /// body becomes the value of the call.
    fn receive_call(&mut self, next: Next)
        ensures
            old(self)@.receive(FrameView::Call, next@) == final(self)@.proceed(),
    {
        match self.callers.pop() {
            Some(caller) => {
                let mut other = caller;
                core::mem::swap(&mut self.scopes, &mut other);
                self.scopes.return_frame(other);
                proof {
                    assert(callers_view(self.callers@) =~= callers_view(
                        old(self).callers@,
                    ).drop_last());
                }
                match next {
                    Next::Return(out) => {
                        self.deliver(Next::Append(out));
                    },
                    other => {
                        self.deliver(other);
                    },
                }
            },
            None => {
                self.fail();
            },
        }
    }

    /// A `for` takes its list.
    fn receive_for_list(&mut self, stmt: &'a ForStatement, next: Next)
        ensures
            old(self)@.receive(FrameView::ForList { stmt: *stmt }, next@) == final(self)@.proceed(),
    {
        match next {
            Next::Append(list) => match &stmt.split {
                Some(separator) => {
                    self.push_frame(Frame::ForSplit { stmt, list });
                    self.evaluate(Task::Value(separator));
                },
                None => {
                    let pieces = list.split(None);
                    proof {
                        assert(texts(pieces@) =~= split_spec(list@.text, None));
                    }
                    self.iterate(stmt, pieces, 0, Output::new_truthy());
                },
            },
            Next::Proceed => {
                self.fail();
            },
            other => {
                self.deliver(other);
            },
        }
    }

    /// A `for` takes its separator.
    fn receive_for_split(&mut self, stmt: &'a ForStatement, list: Output, next: Next)
        ensures
            old(self)@.receive(FrameView::ForSplit { stmt: *stmt, list: list@ }, next@) == final(self)@.proceed(),
    {
        match next {
            Next::Append(separator) => {
                let pieces = list.split(Some(&separator));
                proof {
                    assert(texts(pieces@) =~= split_spec(
                        list@.text,
                        Some(separator@.text),
                    ));
                }
                self.iterate(stmt, pieces, 0, Output::new_truthy());
            },
            Next::Proceed => {
                self.fail();
            },
            other => {
                self.deliver(other);
            },
        }
    }

    /// A `for` takes the value of one iteration.
    fn receive_for_body(
        &mut self,
        stmt: &'a ForStatement,
        pieces: Vec<String>,
        index: usize,
        output: Output,
        next: Next,
    )
        ensures
            old(self)@.receive(
                FrameView::ForBody {
                    stmt: *stmt,
                    pieces: texts(pieces@),
                    index: index as int,
                    output: output@,
                },
                next@,
            ) == final(self)@.proceed(),
    {
        match next {
            Next::Append(out) => {
                let mut output = output;
                output.append(&out);
                if index < pieces.len() {
                    self.iterate(stmt, pieces, index + 1, output);
                } else {
                    self.deliver(Next::Append(output));
                }
            },
            Next::Proceed => {
                self.fail();
            },
            other => {
                self.deliver(other);
            },
        }
    }

    /// An `if` takes its condition.
    fn receive_if(&mut self, stmt: &'a IfStatement, next: Next)
        ensures
            old(self)@.receive(FrameView::IfCondition { stmt: *stmt }, next@) == final(self)@.proceed(),
    {
        match next {
            Next::Append(condition) => {
                if condition.is_truthy() {
                    self.evaluate(Task::Value(&stmt.output));
                } else {
                    self.deliver(Next::Append(Output::new_falsy()));
                }
            },
            Next::Proceed => {
                self.fail();
            },
            other => {
                self.deliver(other);
            },
        }
    }

    /// An `if`-`else` takes its condition.
    fn receive_if_else(&mut self, stmt: &'a IfElseStatement, next: Next)
        ensures
            old(self)@.receive(FrameView::IfElseCondition { stmt: *stmt }, next@) == final(self)@.proceed(),
    {
        match next {
            Next::Append(condition) => {
                if condition.is_truthy() {
                    self.evaluate(Task::Value(&stmt.output_true));
                } else {
                    self.evaluate(Task::Value(&stmt.output_false));
                }
            },
            Next::Proceed => {
                self.fail();
            },
            other => {
                self.deliver(other);
            },
        }
    }

    /// A `while` takes its condition.
    fn receive_while_condition(&mut self, stmt: &'a WhileStatement, output: Output, next: Next)
        ensures
            old(self)@.receive(
                FrameView::WhileCondition { stmt: *stmt, output: output@ },
                next@,
            ) == final(self)@.proceed(),
    {
        match next {
            Next::Append(condition) => {
                if condition.is_truthy() {
                    self.push_scope();
                    self.push_frame(Frame::WhileBody { stmt, output });
                    self.push_frame(Frame::Scoped);
                    self.evaluate(Task::Value(&stmt.output));
                } else {
                    self.deliver(Next::Append(output));
                }
            },
            Next::Proceed => {
                self.fail();
            },
            other => {
                self.deliver(other);
            },
        }
    }

    /// A `while` takes the value of one iteration.
    fn receive_while_body(&mut self, stmt: &'a WhileStatement, output: Output, next: Next)
        ensures
            old(self)@.receive(FrameView::WhileBody { stmt: *stmt, output: output@ }, next@)
                == final(self)@.proceed(),
    {
        match next {
            Next::Append(out) => {
                let mut output = output;
                output.append(&out);
                self.push_frame(Frame::WhileCondition { stmt, output });
                self.evaluate(Task::Value(&stmt.condition));
            },
            Next::Proceed => {
                self.fail();
            },
            other => {
                self.deliver(other);
            },
        }
    }

    /// Hands `next` to `frame`.
    fn receive(&mut self, frame: Frame<'a>, next: Next) -> (res: Action<'a, B>)
        ensures
            old(self)@.receive(frame@, next@) == (StepView { machine: final(self)@, action: res@ }),
    {
        match frame {
            Frame::Statements { executions, index, output } => {
                self.receive_statements(executions, index, output, next);
                Action::Continue
            },
            Frame::Scoped => {
                self.receive_scoped(next);
                Action::Continue
            },
            Frame::Assign { stmt } => {
                self.receive_assign(stmt, next);
                Action::Continue
            },
            Frame::ReturnValue => {
                self.receive_return(next);
                Action::Continue
            },
            Frame::ClearValue => {
                self.receive_clear(next);
                Action::Continue
            },
            Frame::Arguments { stmt, outputs } => self.receive_argument(stmt, outputs, next),
            Frame::Call => {
                self.receive_call(next);
                Action::Continue
            },
            Frame::ForList { stmt } => {
                self.receive_for_list(stmt, next);
                Action::Continue
            },
            Frame::ForSplit { stmt, list } => {
                self.receive_for_split(stmt, list, next);
                Action::Continue
            },
            Frame::ForBody { stmt, pieces, index, output } => {
                self.receive_for_body(stmt, pieces, index, output, next);
                Action::Continue
            },
            Frame::IfCondition { stmt } => {
                self.receive_if(stmt, next);
                Action::Continue
            },
            Frame::IfElseCondition { stmt } => {
                self.receive_if_else(stmt, next);
                Action::Continue
            },
            Frame::WhileCondition { stmt, output } => {
                self.receive_while_condition(stmt, output, next);
                Action::Continue
            },
            Frame::WhileBody { stmt, output } => {
                self.receive_while_body(stmt, output, next);
                Action::Continue
            },
        }
    }
}

/// Entering a task does not look at the control that it replaces.
proof fn lemma_enter_replaces_control<B>(machine: MachineView<B>, control: ControlView, task: TaskView)
    ensures
        (MachineView { control, ..machine }).enter(task) == machine.enter(task),
{
}

/// Handing a signal to a frame does not look at the control that it replaces.
proof fn lemma_receive_replaces_control<B>(
    machine: MachineView<B>,
    control: ControlView,
    frame: FrameView,
    next: NextView,
)
    ensures
        (MachineView { control, ..machine }).receive(frame, next) == machine.receive(frame, next),
{
}

impl<'a, B> Machine<'a, B> {
    /// One step of the evaluation.
    ///
    /// `Continue` asks for the next step. `Invoke` hands a function of the
    /// host and its arguments to the driver, which answers with `resume`.
    /// `Finished` ends the execution with its result.
    pub fn step(&mut self) -> (res: Action<'a, B>)
        ensures
            (StepView { machine: final(self)@, action: res@ }) == old(self)@.step(),
    {
        let mut control = Control::Idle;
        core::mem::swap(&mut control, &mut self.control);
        match control {
            Control::Evaluate(task) => {
                proof {
                    lemma_enter_replaces_control(old(self)@, ControlView::Idle, task@);
                }
                self.enter(task)
            },
            Control::Deliver(next) => match self.pop_frame() {
                Some(frame) => {
                    proof {
                        lemma_receive_replaces_control(
                            old(self)@.without_frame(),
                            ControlView::Idle,
                            frame@,
                            next@,
                        );
                    }
                    self.receive(frame, next)
                },
                None => Action::Finished(next.into_result()),
            },
            Control::Host => {
                self.control = Control::Host;
                Action::Waiting
            },
            Control::Idle => Action::Idle,
        }
    }

    /// Takes the result of the function of the host that the last
    /// `Invoke` asked for. Returns whether the machine was waiting for it;
    /// a machine that was not stays as it is.
    pub fn resume(&mut self, result: Result<Output, ExecutionError>) -> (res: bool)
        ensures
            res == (old(self)@.control is Host),
            final(self)@ == old(self)@.resume(result_view(result)),
    {
        let waiting = match &self.control {
            Control::Host => true,
            _ => false,
        };
        if waiting {
            self.control = Control::Deliver(Next::from(result));
        }
        waiting
    }

    /// Whether the machine waits for the result of a function of the host.
    pub fn is_waiting(&self) -> (res: bool)
        ensures
            res == (self@.control is Host),
    {
        match &self.control {
            Control::Host => true,
            _ => false,
        }
    }

    /// The registry that calls are resolved in.
    pub fn functions(&self) -> (res: &'a FunctionLibrary<B>)
        ensures
            res@ == self@.functions,
    {
        self.functions
    }
}

impl<B> MachineView<B> {
    /// The machine after at most `limit` steps, stopping at the first
    /// step that asks anything but to go on.
    pub open spec fn run(self, limit: nat) -> StepView<B>
        decreases limit,
    {
        if limit == 0 {
            self.proceed()
        } else {
            let first = self.step();
            if first.action is Continue {
                first.machine.run((limit - 1) as nat)
            } else {
                first
            }
        }
    }
}

impl<'a, B> Machine<'a, B> {
    /// Steps until a step asks for the host or ends the execution, but at
    /// most `limit` times; `Continue` says that the limit was reached.
    pub fn run(&mut self, limit: usize) -> (res: Action<'a, B>)
        ensures
            (StepView { machine: final(self)@, action: res@ }) == old(self)@.run(limit as nat),
    {
        let mut left = limit;
        while left > 0
            invariant
                old(self)@.run(limit as nat) == self@.run(left as nat),
            decreases left,
        {
            let action = self.step();
            match action {
                Action::Continue => {},
                other => {
                    return other;
                },
            }
            left = left - 1;
        }
        Action::Continue
    }
}

/// The status that an evaluated template ends with, where it evaluates:
/// that of `output` where no piece is left, else 0 after a literal last
/// piece and the status of its variable after a variable last piece.
pub open spec fn last_status(
    pieces: Seq<Piece>,
    scopes: ScopeStackView,
    from: int,
    output: OutputView,
) -> i64 {
    if from >= pieces.len() {
        output.status
    } else {
        match pieces.last() {
            Piece::Raw(_) => 0,
            Piece::Variable(name) => match scopes.lookup(name) {
                Some(value) => value.status,
                None => 0,
            },
        }
    }
}

/// The status of an evaluated template is the status of its last piece.
pub proof fn lemma_template_status(
    pieces: Seq<Piece>,
    scopes: ScopeStackView,
    from: int,
    output: OutputView,
)
    requires
        0 <= from <= pieces.len(),
    ensures
        template_value(pieces, scopes, from, output) matches NextView::Append(value)
            ==> value.status == last_status(pieces, scopes, from, output),
    decreases pieces.len() - from,
{
    if from < pieces.len() {
        match pieces[from] {
            Piece::Raw(text) => {
                lemma_template_status(
                    pieces,
                    scopes,
                    from + 1,
                    appended(output, OutputView { text, status: 0 }),
                );
            },
            Piece::Variable(name) => {
                if let Some(value) = scopes.lookup(name) {
                    lemma_template_status(pieces, scopes, from + 1, appended(output, value));
                }
            },
        }
    }
}

/// The number of local scopes that each running function must hold for
/// its frames: the callers first, the function that runs last. A scope
/// frame stands for one scope of the function it belongs to, and a call
/// frame starts a function with the one scope of its parameters.
pub open spec fn scopes_owed(frames: Seq<FrameView>) -> Seq<int>
    decreases frames.len(),
{
    if frames.len() == 0 {
        seq![0int]
    } else {
        let below = scopes_owed(frames.drop_last());
        match frames.last() {
            FrameView::Scoped => below.update(below.len() - 1, below.last() + 1),
            FrameView::Call => below.push(1),
            _ => below,
        }
    }
}

/// The number of local scopes that each function holds: the callers
/// first, the function that runs last.
pub open spec fn scopes_held<B>(machine: MachineView<B>) -> Seq<int> {
    Seq::new(machine.callers.len(), |i: int| machine.callers[i].len() as int).push(
        machine.scopes.frames.len() as int,
    )
}

/// Every scope that was pushed has its frame, and every frame its scope:
/// each function holds exactly the scopes that its frames owe.
pub open spec fn balanced<B>(machine: MachineView<B>) -> bool {
    scopes_held(machine) == scopes_owed(machine.frames)
}

/// There is at least one entry, and none is negative.
proof fn lemma_scopes_owed_shape(frames: Seq<FrameView>)
    ensures
        scopes_owed(frames).len() >= 1,
        forall|i: int| 0 <= i < scopes_owed(frames).len() ==> #[trigger] scopes_owed(frames)[i] >= 0,
    decreases frames.len(),
{
    if frames.len() > 0 {
        lemma_scopes_owed_shape(frames.drop_last());
    }
}

/// What one more frame owes.
proof fn lemma_scopes_owed_push(frames: Seq<FrameView>, frame: FrameView)
    ensures
        scopes_owed(frames.push(frame)) == (match frame {
            FrameView::Scoped => scopes_owed(frames).update(
                scopes_owed(frames).len() - 1,
                scopes_owed(frames).last() + 1,
            ),
            FrameView::Call => scopes_owed(frames).push(1),
            _ => scopes_owed(frames),
        }),
{
    assert(frames.push(frame).drop_last() =~= frames);
}

/// A machine with another control, another frame that owes nothing, or
/// other bindings in the same scopes is as balanced as before.
proof fn lemma_balance_moves<B>(machine: MachineView<B>)
    requires
        balanced(machine),
    ensures
        forall|next: NextView| balanced(#[trigger] machine.deliver(next)),
        forall|task: TaskView| balanced(#[trigger] machine.evaluate(task)),
        forall|frame: FrameView|
            !(frame is Scoped) && !(frame is Call) ==> balanced(#[trigger] machine.with_frame(frame)),
        balanced(machine.with_scopes(machine.scopes.push()).with_frame(FrameView::Scoped)),
{
    assert forall|frame: FrameView| !(frame is Scoped) && !(frame is Call) implies balanced(
        #[trigger] machine.with_frame(frame),
    ) by {
        lemma_scopes_owed_push(machine.frames, frame);
    }
    lemma_scopes_owed_push(machine.frames, FrameView::Scoped);
    let pushed = machine.with_scopes(machine.scopes.push()).with_frame(FrameView::Scoped);
    assert(scopes_held(pushed) =~= scopes_owed(pushed.frames));
}

/// Declaring bindings keeps the number of scopes.
proof fn lemma_declare_all_depth(scopes: ScopeStackView, bindings: Seq<Binding>, from: int)
    requires
        0 <= from <= bindings.len(),
    ensures
        declare_all(scopes, bindings, from).frames.len() == scopes.frames.len(),
    decreases bindings.len() - from,
{
    if from < bindings.len() {
        lemma_declare_all_depth(
            scopes.declare(bindings[from].name, bindings[from].value),
            bindings,
            from + 1,
        );
    }
}

/// Starting a statement of a list keeps the balance.
proof fn lemma_statements_balanced<B>(
    machine: MachineView<B>,
    executions: Seq<Execution>,
    index: int,
    output: OutputView,
)
    requires
        balanced(machine),
    ensures
        balanced(machine.statements(executions, index, output)),
{
    lemma_balance_moves(machine);
    if 0 <= index < executions.len() {
        let framed = machine.with_frame(FrameView::Statements { executions, index, output });
        lemma_balance_moves(framed);
    }
}

/// Starting an iteration keeps the balance.
proof fn lemma_iterate_balanced<B>(
    machine: MachineView<B>,
    stmt: ForStatement,
    pieces: Seq<Seq<char>>,
    index: int,
    output: OutputView,
)
    requires
        balanced(machine),
    ensures
        balanced(machine.iterate(stmt, pieces, index, output)),
{
    lemma_balance_moves(machine);
    if 0 <= index < pieces.len() {
        let frame = FrameView::ForBody { stmt, pieces, index, output };
        let scoped = machine.with_scopes(
            machine.scopes.push().declare(
                stmt.variable@,
                OutputView { text: pieces[index], status: 0 },
            ),
        );
        lemma_scopes_owed_push(machine.frames, frame);
        lemma_scopes_owed_push(machine.frames.push(frame), FrameView::Scoped);
        let after = scoped.with_frame(frame).with_frame(FrameView::Scoped);
        assert(scopes_held(after) =~= scopes_owed(after.frames));
        lemma_balance_moves(after);
    }
}

/// A call keeps the balance.
proof fn lemma_call_balanced<B>(
    machine: MachineView<B>,
    stmt: CommandStatement,
    outputs: Seq<OutputView>,
)
    requires
        balanced(machine),
    ensures
        balanced(machine.call(stmt, outputs).machine),
{
    lemma_balance_moves(machine);
    match resolve_spec(machine.functions, stmt.name@, outputs.len() as usize) {
        Resolution::Found(at) => {
            let func = overloads_of(machine.functions, stmt.name@)[at];
            match func.runnable {
                Runnable::BuiltIn(host) => {
                    let waiting = MachineView { control: ControlView::Host, ..machine };
                    assert(scopes_held(waiting) =~= scopes_held(machine));
                },
                Runnable::Block(block) => match bind_spec(func.args@, outputs, 0) {
                    None => {},
                    Some(bindings) => {
                        lemma_declare_all_depth(machine.scopes.sibling().push(), bindings, 0);
                        lemma_scopes_owed_push(machine.frames, FrameView::Call);
                        let called = MachineView {
                            scopes: declare_all(machine.scopes.sibling().push(), bindings, 0),
                            callers: machine.callers.push(machine.scopes.frames),
                            ..machine
                        }.with_frame(FrameView::Call);
                        assert(scopes_held(called) =~= scopes_owed(called.frames));
                        lemma_balance_moves(called);
                    },
                },
            }
        },
        _ => {},
    }
}

/// Entering a task keeps the balance.
proof fn lemma_enter_balanced<B>(machine: MachineView<B>, task: TaskView)
    requires
        balanced(machine),
    ensures
        balanced(machine.enter(task).machine),
{
    lemma_balance_moves(machine);
    match task {
        TaskView::Block(block) => {
            let scoped = machine.with_scopes(machine.scopes.push()).with_frame(FrameView::Scoped);
            lemma_statements_balanced(scoped, block.executions@, 0, truthy());
        },
        TaskView::Control(ControlStatement::ForStatement(stmt)) => {
            let scoped = machine.with_scopes(machine.scopes.push()).with_frame(FrameView::Scoped);
            lemma_balance_moves(scoped);
            lemma_balance_moves(scoped.with_frame(FrameView::ForList { stmt }));
        },
        TaskView::Control(ControlStatement::IfStatement(stmt)) => {
            lemma_balance_moves(machine.with_frame(FrameView::IfCondition { stmt }));
        },
        TaskView::Control(ControlStatement::IfElseStatement(stmt)) => {
            lemma_balance_moves(machine.with_frame(FrameView::IfElseCondition { stmt }));
        },
        TaskView::Control(ControlStatement::WhileStatement(stmt)) => {
            lemma_balance_moves(
                machine.with_frame(FrameView::WhileCondition { stmt, output: truthy() }),
            );
        },
        TaskView::Open(OpenStatement::SetStmt(stmt)) => {
            lemma_balance_moves(machine.with_frame(FrameView::Assign { stmt }));
        },
        TaskView::Open(OpenStatement::ReturnStmt(stmt)) => {
            lemma_balance_moves(machine.with_frame(FrameView::ReturnValue));
        },
        TaskView::Open(OpenStatement::ClearStmt(stmt)) => {
            lemma_balance_moves(machine.with_frame(FrameView::ClearValue));
        },
        TaskView::Open(OpenStatement::CommandStmt(stmt)) => {
            if stmt.parameters@.len() > 0 {
                lemma_balance_moves(
                    machine.with_frame(FrameView::Arguments { stmt, outputs: Seq::empty() }),
                );
            } else {
                lemma_call_balanced(machine, stmt, Seq::empty());
            }
        },
        _ => {},
    }
}

/// A machine that lost a frame which owes nothing is balanced, and so is
/// one that lost a scope frame once the scope is popped as well.
proof fn lemma_balance_without_frame<B>(machine: MachineView<B>)
    requires
        balanced(machine),
        machine.frames.len() > 0,
    ensures
        !(machine.frames.last() is Scoped) && !(machine.frames.last() is Call) ==> balanced(
            machine.without_frame(),
        ),
        machine.frames.last() is Scoped ==> machine.scopes.frames.len() > 0 && balanced(
            machine.without_frame().with_scopes(machine.scopes.pop()),
        ),
        machine.frames.last() is Call ==> machine.callers.len() > 0 && balanced(
            MachineView {
                scopes: ScopeStackView {
                    global: machine.scopes.global,
                    frames: machine.callers.last(),
                },
                callers: machine.callers.drop_last(),
                ..machine.without_frame()
            },
        ),
{
    let below = scopes_owed(machine.frames.drop_last());
    lemma_scopes_owed_shape(machine.frames.drop_last());
    if machine.frames.last() is Scoped {
        let popped = machine.without_frame().with_scopes(machine.scopes.pop());
        assert(scopes_owed(machine.frames) == below.update(below.len() - 1, below.last() + 1));
        assert(scopes_held(machine).len() == machine.callers.len() + 1);
        assert(below.len() == machine.callers.len() + 1);
        assert(scopes_held(machine)[machine.callers.len() as int] == below.last() + 1);
        assert forall|i: int| 0 <= i < below.len() implies #[trigger] scopes_held(popped)[i]
            == below[i] by {
            if i < machine.callers.len() {
                assert(scopes_held(machine)[i] == below[i]);
            }
        }
        assert(scopes_held(popped) =~= below);
    } else if machine.frames.last() is Call {
        assert(scopes_owed(machine.frames) == below.push(1));
        assert(scopes_held(machine).len() == below.len() + 1);
        let back = MachineView {
            scopes: ScopeStackView {
                global: machine.scopes.global,
                frames: machine.callers.last(),
            },
            callers: machine.callers.drop_last(),
            ..machine.without_frame()
        };
        assert forall|i: int| 0 <= i < below.len() implies #[trigger] scopes_held(back)[i]
            == below[i] by {
            assert(scopes_held(machine)[i] == below.push(1)[i]);
        }
        assert(scopes_held(back) =~= below);
    } else {
        assert(scopes_held(machine.without_frame()) =~= below);
    }
}

/// Handing a signal to the innermost frame keeps the balance.
proof fn lemma_receive_balanced<B>(machine: MachineView<B>, next: NextView)
    requires
        balanced(machine),
        machine.frames.len() > 0,
    ensures
        balanced(machine.without_frame().receive(machine.frames.last(), next).machine),
{
    let rest = machine.without_frame();
    lemma_balance_without_frame(machine);
    match machine.frames.last() {
        FrameView::Statements { executions, index, output } => {
            lemma_balance_moves(rest);
            lemma_statements_balanced(rest, executions, index + 1, output);
            match next {
                NextView::Append(out) => {
                    lemma_statements_balanced(rest, executions, index + 1, appended(output, out));
                },
                NextView::Clear(out) => {
                    lemma_statements_balanced(rest, executions, index + 1, out);
                },
                _ => {},
            }
        },
        FrameView::Scoped => {
            lemma_balance_moves(rest.with_scopes(machine.scopes.pop()));
        },
        FrameView::Assign { stmt } => {
            lemma_balance_moves(rest);
            match next {
                NextView::Append(out) => {
                    super::scope::lemma_assign_then_lookup(rest.scopes, stmt.variable@, out);
                    let set = rest.with_scopes(rest.scopes.assign(stmt.variable@, out));
                    assert(scopes_held(set) =~= scopes_held(rest));
                    lemma_balance_moves(set);
                },
                _ => {},
            }
        },
        FrameView::Arguments { stmt, outputs } => {
            lemma_balance_moves(rest);
            match next {
                NextView::Append(out) => {
                    let gathered = outputs.push(out);
                    if gathered.len() < stmt.parameters@.len() {
                        lemma_balance_moves(
                            rest.with_frame(FrameView::Arguments { stmt, outputs: gathered }),
                        );
                    } else {
                        lemma_call_balanced(rest, stmt, gathered);
                    }
                },
                _ => {},
            }
        },
        FrameView::Call => {
            let back = MachineView {
                scopes: ScopeStackView {
                    global: machine.scopes.global,
                    frames: machine.callers.last(),
                },
                callers: machine.callers.drop_last(),
                ..rest
            };
            lemma_balance_moves(back);
        },
        FrameView::ForList { stmt } => {
            lemma_balance_moves(rest);
            match next {
                NextView::Append(list) => match stmt.split {
                    Some(separator) => {
                        lemma_balance_moves(rest.with_frame(FrameView::ForSplit { stmt, list }));
                    },
                    None => {
                        lemma_iterate_balanced(
                            rest,
                            stmt,
                            split_spec(list.text, None),
                            0,
                            truthy(),
                        );
                    },
                },
                _ => {},
            }
        },
        FrameView::ForSplit { stmt, list } => {
            lemma_balance_moves(rest);
            match next {
                NextView::Append(separator) => {
                    lemma_iterate_balanced(
                        rest,
                        stmt,
                        split_spec(list.text, Some(separator.text)),
                        0,
                        truthy(),
                    );
                },
                _ => {},
            }
        },
        FrameView::ForBody { stmt, pieces, index, output } => {
            lemma_balance_moves(rest);
            match next {
                NextView::Append(out) => {
                    lemma_iterate_balanced(rest, stmt, pieces, index + 1, appended(output, out));
                },
                _ => {},
            }
        },
        FrameView::WhileCondition { stmt, output } => {
            lemma_balance_moves(rest);
            let frame = FrameView::WhileBody { stmt, output };
            lemma_scopes_owed_push(rest.frames, frame);
            lemma_scopes_owed_push(rest.frames.push(frame), FrameView::Scoped);
            let looped = rest.with_scopes(rest.scopes.push()).with_frame(frame).with_frame(
                FrameView::Scoped,
            );
            assert(scopes_held(looped) =~= scopes_owed(looped.frames));
            lemma_balance_moves(looped);
        },
        FrameView::WhileBody { stmt, output } => {
            lemma_balance_moves(rest);
            match next {
                NextView::Append(out) => {
                    lemma_balance_moves(
                        rest.with_frame(
                            FrameView::WhileCondition { stmt, output: appended(output, out) },
                        ),
                    );
                },
                _ => {},
            }
        },
        _ => {
            lemma_balance_moves(rest);
        },
    }
}

/// What is left open follows from the frames: two balanced machines with
/// the same frames hold the same number of scopes in each function. So a
/// block, a loop or a call that has handed its result on has left the
/// scopes as deep as it found them.
pub proof fn lemma_frames_fix_depth<B>(before: MachineView<B>, after: MachineView<B>)
    requires
        balanced(before),
        balanced(after),
        before.frames == after.frames,
    ensures
        after.scopes.frames.len() == before.scopes.frames.len(),
        after.callers.len() == before.callers.len(),
        forall|i: int|
            0 <= i < before.callers.len() ==> (#[trigger] after.callers[i]).len()
                == before.callers[i].len(),
{
    assert(scopes_held(before) == scopes_held(after));
    assert(scopes_held(before).len() == before.callers.len() + 1);
    assert(scopes_held(after).len() == after.callers.len() + 1);
    assert(scopes_held(before)[before.callers.len() as int] == before.scopes.frames.len());
    assert(scopes_held(after)[after.callers.len() as int] == after.scopes.frames.len());
    assert forall|i: int| 0 <= i < before.callers.len() implies (#[trigger] after.callers[i]).len()
        == before.callers[i].len() by {
        assert(scopes_held(before)[i] == before.callers[i].len());
        assert(scopes_held(after)[i] == after.callers[i].len());
    }
}

/// A machine that is about to run a program is balanced.
pub proof fn lemma_start_balanced<B>(
    functions: Seq<EntryView<B>>,
    global: Bindings,
    executions: Seq<Execution>,
)
    ensures
        balanced(MachineView::start(functions, global, executions)),
{
    let idle = MachineView {
        functions,
        scopes: ScopeStackView { global, frames: Seq::empty() },
        callers: Seq::empty(),
        frames: Seq::empty(),
        control: ControlView::Idle,
    };
    assert(scopes_held(idle) =~= scopes_owed(idle.frames));
    lemma_statements_balanced(idle, executions, 0, truthy());
}

/// A call goes on by itself or asks for the host.
proof fn lemma_call_action<B>(machine: MachineView<B>, stmt: CommandStatement, outputs: Seq<OutputView>)
    ensures
        machine.call(stmt, outputs).action is Continue || machine.call(stmt, outputs).action
            is Invoke,
{
}

/// Entering a task goes on by itself or asks for the host.
proof fn lemma_enter_action<B>(machine: MachineView<B>, task: TaskView)
    ensures
        machine.enter(task).action is Continue || machine.enter(task).action is Invoke,
{
    if let TaskView::Open(OpenStatement::CommandStmt(stmt)) = task {
        lemma_call_action(machine, stmt, Seq::empty());
    }
}

/// Handing a signal to a frame goes on by itself or asks for the host.
proof fn lemma_receive_action<B>(machine: MachineView<B>, frame: FrameView, next: NextView)
    ensures
        machine.receive(frame, next).action is Continue || machine.receive(frame, next).action
            is Invoke,
{
    if let FrameView::Arguments { stmt, outputs } = frame {
        if let NextView::Append(out) = next {
            lemma_call_action(machine, stmt, outputs.push(out));
        }
    }
}

/// Scopes are entered and left in pairs, however a block ends.
///
/// A step keeps a balanced machine balanced. In a balanced machine a
/// signal that reaches a scope frame finds the scope to pop, a signal
/// that reaches a call frame finds the caller to go back to, and an
/// execution that ends has left every scope and every call.
pub proof fn lemma_step_balanced<B>(machine: MachineView<B>)
    requires
        balanced(machine),
    ensures
        balanced(machine.step().machine),
        machine.control is Deliver && machine.frames.len() > 0 && machine.frames.last()
            is Scoped ==> machine.scopes.frames.len() > 0,
        machine.control is Deliver && machine.frames.len() > 0 && machine.frames.last()
            is Call ==> machine.callers.len() > 0,
        machine.step().action is Finished ==> machine.scopes.frames.len() == 0
            && machine.callers.len() == 0,
{
    match machine.control {
        ControlView::Evaluate(task) => {
            lemma_enter_balanced(machine, task);
            lemma_enter_action(machine, task);
        },
        ControlView::Deliver(next) => {
            if machine.frames.len() > 0 {
                lemma_receive_balanced(machine, next);
                lemma_balance_without_frame(machine);
                lemma_receive_action(machine.without_frame(), machine.frames.last(), next);
            } else {
                let idle = MachineView { control: ControlView::Idle, ..machine };
                assert(scopes_held(idle) =~= scopes_held(machine));
                assert(scopes_owed(machine.frames) =~= seq![0int]);
                assert(scopes_held(machine).len() == 1);
                assert(machine.callers.len() == 0);
                assert(scopes_held(machine)[0] == 0);
            }
        },
        _ => {},
    }
}

/// Taking the result of the host keeps the balance.
pub proof fn lemma_resume_balanced<B>(
    machine: MachineView<B>,
    result: Result<OutputView, ExecutionErrorView>,
)
    requires
        balanced(machine),
    ensures
        balanced(machine.resume(result)),
{
    lemma_balance_moves(machine);
}

} // verus!
