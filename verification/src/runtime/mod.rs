//! Runtime data: values, scopes, the function registry and the evaluator.

pub mod functions;
pub mod lazy;
pub mod machine;
pub mod output;
pub mod scope;

use vstd::prelude::*;
use vstd::string::StringExecFns;
use crate::text::{decimal_text, push_decimal, texts};
use crate::parser::grammar::Function;
use functions::{
    register_spec, script_overload, EntryView, FunctionLibrary, RegisterError, RegisterErrorView,
};
use output::{Output, OutputView};
use scope::{scope_view, Scope};
use vstd::hash_map::StringHashMap;

verus! {

/// Why an execution stopped.
#[derive(Debug)]
pub enum ExecutionError {
    /// A template names a variable that no visible scope binds.
    UndeclaredVariable(String),
    /// A call names a function that has no overload at all.
    UndefinedFunction(String),
    /// A call names a function of which no overload takes that many arguments.
    UndefinedOverload(String, usize),
    /// A state that a well-formed execution never reaches.
    InternalError,
}

/// An [`ExecutionError`] as a plain value.
pub enum ExecutionErrorView {
    UndeclaredVariable(Seq<char>),
    UndefinedFunction(Seq<char>),
    UndefinedOverload(Seq<char>, usize),
    InternalError,
}

impl ExecutionErrorView {
    /// The text that reports the error.
    pub open spec fn message(self) -> Seq<char> {
        match self {
            ExecutionErrorView::UndeclaredVariable(var) => "error: Use of undeclared variable `"@
                + var + "`"@,
            ExecutionErrorView::UndefinedFunction(func) => "error: Use of undefined function `"@
                + func + "`"@,
            ExecutionErrorView::UndefinedOverload(func, count) => "error: no overload for function `"@
                + func + "` takes `"@ + decimal_text(count as nat) + "` arguments"@,
            ExecutionErrorView::InternalError => "error: Internal runtime error"@,
        }
    }
}

impl View for ExecutionError {
    type V = ExecutionErrorView;

    open spec fn view(&self) -> ExecutionErrorView {
        match self {
            ExecutionError::UndeclaredVariable(var) => ExecutionErrorView::UndeclaredVariable(var@),
            ExecutionError::UndefinedFunction(func) => ExecutionErrorView::UndefinedFunction(
                func@,
            ),
            ExecutionError::UndefinedOverload(func, count) => ExecutionErrorView::UndefinedOverload(
                func@,
                *count,
            ),
            ExecutionError::InternalError => ExecutionErrorView::InternalError,
        }
    }
}

impl ExecutionError {
    /// The text that reports the error.
    pub fn to_string(&self) -> (res: String)
        ensures
            res@ == self@.message(),
    {
        match self {
            ExecutionError::UndeclaredVariable(var) => {
                let mut res = String::from_str("error: Use of undeclared variable `");
                res.append(var.as_str());
                res.append("`");
                res
            },
            ExecutionError::UndefinedFunction(func) => {
                let mut res = String::from_str("error: Use of undefined function `");
                res.append(func.as_str());
                res.append("`");
                res
            },
            ExecutionError::UndefinedOverload(func, count) => {
                let mut res = String::from_str("error: no overload for function `");
                res.append(func.as_str());
                res.append("` takes `");
                push_decimal(&mut res, *count as u128);
                res.append("` arguments");
                res
            },
            ExecutionError::InternalError => String::from_str("error: Internal runtime error"),
        }
    }
}

impl Clone for ExecutionError {
    fn clone(&self) -> (res: Self)
        ensures
            res@ == self@,
    {
        match self {
            ExecutionError::UndeclaredVariable(var) => ExecutionError::UndeclaredVariable(
                var.clone(),
            ),
            ExecutionError::UndefinedFunction(func) => ExecutionError::UndefinedFunction(
                func.clone(),
            ),
            ExecutionError::UndefinedOverload(func, count) => ExecutionError::UndefinedOverload(
                func.clone(),
                *count,
            ),
            ExecutionError::InternalError => ExecutionError::InternalError,
        }
    }
}

/// Why a program failed: before it ran, or while it ran.
#[derive(Debug)]
pub enum RuntimeError {
    RegisterError(RegisterError),
    ExecutionError(ExecutionError),
}

/// A [`RuntimeError`] as a plain value.
pub enum RuntimeErrorView {
    RegisterError(RegisterErrorView),
    ExecutionError(ExecutionErrorView),
}

impl View for RuntimeError {
    type V = RuntimeErrorView;

    open spec fn view(&self) -> RuntimeErrorView {
        match self {
            RuntimeError::RegisterError(err) => RuntimeErrorView::RegisterError(err@),
            RuntimeError::ExecutionError(err) => RuntimeErrorView::ExecutionError(err@),
        }
    }
}

/// What the evaluation of a statement or an expression hands to what
/// surrounds it.
#[derive(Debug)]
pub enum Next {
    /// Nothing to add; go on.
    Proceed,
    /// A value to add to the surrounding result; go on.
    Append(Output),
    /// Leave the function that is running, with this value.
    Return(Output),
    /// Replace the surrounding result by this value; go on.
    Clear(Output),
    /// Stop the whole execution.
    Abort(ExecutionError),
}

/// A [`Next`] as a plain value.
pub enum NextView {
    Proceed,
    Append(OutputView),
    Return(OutputView),
    Clear(OutputView),
    Abort(ExecutionErrorView),
}

impl NextView {
    /// An `Append` becomes `Proceed`; anything else stays.
    pub open spec fn supress(self) -> NextView {
        match self {
            NextView::Append(_) => NextView::Proceed,
            other => other,
        }
    }

    /// What an execution that ends with this signal hands to its caller.
    pub open spec fn outcome(self) -> Result<OutputView, ExecutionErrorView> {
        match self {
            NextView::Append(output) => Ok(output),
            NextView::Return(output) => Ok(output),
            NextView::Abort(err) => Err(err),
            _ => Err(ExecutionErrorView::InternalError),
        }
    }
}

/// The result of a host function as a plain value.
pub open spec fn result_view(value: Result<Output, ExecutionError>) -> Result<
    OutputView,
    ExecutionErrorView,
> {
    match value {
        Ok(output) => Ok(output@),
        Err(err) => Err(err@),
    }
}

impl View for Next {
    type V = NextView;

    open spec fn view(&self) -> NextView {
        match self {
            Next::Proceed => NextView::Proceed,
            Next::Append(output) => NextView::Append(output@),
            Next::Return(output) => NextView::Return(output@),
            Next::Clear(output) => NextView::Clear(output@),
            Next::Abort(err) => NextView::Abort(err@),
        }
    }
}

impl Next {
    /// Drops a value that is evaluated for effect only: an `Append`
    /// becomes `Proceed`.
    pub fn supress(self) -> (res: Next)
        ensures
            res@ == self@.supress(),
    {
        if let Next::Append(_) = self {
            Next::Proceed
        } else {
            self
        }
    }

    /// Lifts the result of a host function: its value is appended, its
    /// error aborts.
    pub fn from(value: Result<Output, ExecutionError>) -> (res: Next)
        ensures
            res@ == (match value {
                Ok(output) => NextView::Append(output@),
                Err(err) => NextView::Abort(err@),
            }),
    {
        match value {
            Ok(output) => Next::Append(output),
            Err(err) => Next::Abort(err),
        }
    }

    /// What an execution that ends with this signal hands to its caller:
    /// the value of an `Append` or a `Return`, the error of an `Abort`, and
    /// an internal error for the two signals that never reach the top.
    pub fn into_result(self) -> (res: Result<Output, ExecutionError>)
        ensures
            result_view(res) == self@.outcome(),
    {
        match self {
            Next::Append(output) => Ok(output),
            Next::Return(output) => Ok(output),
            Next::Abort(err) => Err(err),
            _ => Err(ExecutionError::InternalError),
        }
    }
}

/// What registering a list of script functions one by one leaves behind.
pub struct ScriptRegistration<B> {
    /// The registry afterwards.
    pub entries: Seq<EntryView<B>>,
    /// The source texts of the functions that were registered, in order.
    pub registered: Seq<Seq<char>>,
    /// The names of the functions that were refused, in order.
    pub refused: Seq<Seq<char>>,
}

/// Registers the definitions `functions[from..]` one by one; a refusal is
/// noted and the rest goes on.
pub open spec fn register_scripts_spec<B>(
    entries: Seq<EntryView<B>>,
    functions: Seq<Function>,
    from: int,
) -> ScriptRegistration<B>
    decreases functions.len() - from,
{
    if from < 0 || from >= functions.len() {
        ScriptRegistration { entries, registered: Seq::empty(), refused: Seq::empty() }
    } else {
        match register_spec(entries, functions[from].name@, script_overload(functions[from])) {
            Some(next) => {
                let rest = register_scripts_spec(next, functions, from + 1);
                ScriptRegistration {
                    entries: rest.entries,
                    registered: seq![functions[from].script@] + rest.registered,
                    refused: rest.refused,
                }
            },
            None => {
                let rest = register_scripts_spec(entries, functions, from + 1);
                ScriptRegistration {
                    entries: rest.entries,
                    registered: rest.registered,
                    refused: seq![functions[from].name@] + rest.refused,
                }
            },
        }
    }
}

/// The names that a list of refusals names.
pub open spec fn refusals_view(errors: Seq<RegisterError>) -> Seq<Seq<char>> {
    Seq::new(
        errors.len(),
        |i: int|
            match errors[i] {
                RegisterError::OverloadBuiltin(name) => name@,
            },
    )
}

/// The registry of functions and the global variables of one program.
pub struct Runtime<B> {
    pub functions: FunctionLibrary<B>,
    pub global_scope: Scope,
}

impl<B> Runtime<B> {
    /// A runtime with no function and no variable.
    pub fn new() -> (res: Runtime<B>)
        ensures
            res.functions@ == Seq::<EntryView<B>>::empty(),
            scope_view(res.global_scope) == Map::<Seq<char>, OutputView>::empty(),
    {
        let res = Runtime { functions: FunctionLibrary::new(), global_scope: StringHashMap::new() };
        assert(scope_view(res.global_scope) =~= Map::<Seq<char>, OutputView>::empty());
        res
    }

    /// Merges a library of functions into the registry, up to the first refusal.
    pub fn register_library(&mut self, other: FunctionLibrary<B>) -> (res: Result<
        String,
        RegisterError,
    >)
        ensures
            final(self).functions@ == functions::merge_spec(old(self).functions@, other@, 0).0,
            final(self).global_scope == old(self).global_scope,
            res is Ok <==> functions::merge_spec(old(self).functions@, other@, 0).1 is None,
            res matches Ok(message) ==> message@ == "Registered "@ + decimal_text(
                functions::count_overloads(other@, 0),
            ) + " functions"@,
            res matches Err(err) ==> err@ == RegisterErrorView::OverloadBuiltin(
                functions::merge_spec(old(self).functions@, other@, 0).1->0,
            ),
    {
        self.functions.merge(other)
    }

    /// Registers the functions of a script one by one. Returns the source
    /// texts of those that were registered and the refusals of the others.
    #[verifier::loop_isolation(false)]
    pub fn register_script_library(&mut self, functions: Vec<Function>) -> (res: (
        Vec<String>,
        Vec<RegisterError>,
    ))
        ensures
            final(self).global_scope == old(self).global_scope,
            final(self).functions@ == register_scripts_spec(
                old(self).functions@,
                functions@,
                0,
            ).entries,
            texts(res.0@) == register_scripts_spec(
                old(self).functions@,
                functions@,
                0,
            ).registered,
            refusals_view(res.1@) == register_scripts_spec(
                old(self).functions@,
                functions@,
                0,
            ).refused,
    {
        let ghost all = functions@;
        let ghost whole = register_scripts_spec(old(self).functions@, all, 0);
        let mut rest = functions;
        let mut registered: Vec<String> = Vec::new();
        let mut refused: Vec<RegisterError> = Vec::new();
        let ghost mut done: int = 0;
        proof {
            assert(texts(registered@) =~= Seq::empty());
            assert(refusals_view(refused@) =~= Seq::empty());
            let start = register_scripts_spec(self.functions@, all, 0);
            assert(Seq::<Seq<char>>::empty() + start.registered =~= start.registered);
            assert(Seq::<Seq<char>>::empty() + start.refused =~= start.refused);
        }
        while rest.len() > 0
            invariant
                0 <= done <= all.len(),
                rest@ == all.skip(done),
                self.global_scope == old(self).global_scope,
                whole.entries == register_scripts_spec(self.functions@, all, done).entries,
                whole.registered == texts(registered@) + register_scripts_spec(
                    self.functions@,
                    all,
                    done,
                ).registered,
                whole.refused == refusals_view(refused@) + register_scripts_spec(
                    self.functions@,
                    all,
                    done,
                ).refused,
            decreases rest.len(),
        {
            let func = rest.remove(0);
            let ghost kept = texts(registered@);
            let ghost lost = refusals_view(refused@);
            proof {
                assert(func == all[done]);
                assert(rest@ =~= all.skip(done + 1));
            }
            let def = func.script.clone();
            match self.functions.add_script(func) {
                Ok(_) => {
                    registered.push(def);
                    proof {
                        let after = register_scripts_spec(self.functions@, all, done + 1);
                        assert(texts(registered@) =~= kept.push(all[done].script@));
                        assert(kept.push(all[done].script@) + after.registered =~= kept + (
                        seq![all[done].script@] + after.registered));
                    }
                },
                Err(err) => {
                    refused.push(err);
                    proof {
                        let after = register_scripts_spec(self.functions@, all, done + 1);
                        assert(refusals_view(refused@) =~= lost.push(all[done].name@));
                        assert(lost.push(all[done].name@) + after.refused =~= lost + (
                        seq![all[done].name@] + after.refused));
                    }
                },
            }
            proof {
                done = done + 1;
            }
        }
        proof {
            let end = register_scripts_spec(self.functions@, all, done);
            assert(texts(registered@) + end.registered =~= texts(registered@));
            assert(refusals_view(refused@) + end.refused =~= refusals_view(refused@));
        }
        (registered, refused)
    }
}

} // verus!
