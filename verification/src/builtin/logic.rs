//! Truth values and comparisons of texts.

use vstd::prelude::*;
use crate::runtime::functions::FunctionLibrary;
use crate::runtime::output::{outputs_view, Output, OutputView};
use crate::runtime::{result_view, ExecutionError, ExecutionErrorView};

verus! {

/// The empty text with status 0 for `true`, 1 for `false`.
pub open spec fn verdict(holds: bool) -> OutputView {
    OutputView { text: Seq::empty(), status: if holds {
        0
    } else {
        1
    } }
}

/// What a function of exactly two arguments answers: `Ok` of the verdict
/// on them, or an internal error for any other number of arguments.
pub open spec fn binary(args: Seq<OutputView>, holds: bool) -> Result<OutputView, ExecutionErrorView> {
    if args.len() == 2 {
        Ok(verdict(holds))
    } else {
        Err(ExecutionErrorView::InternalError)
    }
}

/// The empty text with status 0 for `true`, 1 for `false`.
fn answer(holds: bool) -> (res: Output)
    ensures
        res@ == verdict(holds),
{
    if holds {
        Output::new_truthy()
    } else {
        Output::new_falsy()
    }
}

/// `true`: the truthy empty value, whatever the arguments.
pub fn truthy<B>(_library: &FunctionLibrary<B>, _args: &[Output]) -> (res: Result<
    Output,
    ExecutionError,
>)
    ensures
        result_view(res) == Ok::<OutputView, ExecutionErrorView>(verdict(true)),
{
    Ok(Output::new_truthy())
}

/// `false`: the falsy empty value, whatever the arguments.
pub fn falsy<B>(_library: &FunctionLibrary<B>, _args: &[Output]) -> (res: Result<
    Output,
    ExecutionError,
>)
    ensures
        result_view(res) == Ok::<OutputView, ExecutionErrorView>(verdict(false)),
{
    Ok(Output::new_falsy())
}

/// `like a b`: truthy where the two texts are equal.
pub fn like<B>(_library: &FunctionLibrary<B>, args: &[Output]) -> (res: Result<Output, ExecutionError>)
    ensures
        result_view(res) == binary(
            outputs_view(args@),
            args@.len() == 2 && args@[0]@.text == args@[1]@.text,
        ),
{
    if args.len() == 2 {
        Ok(answer(args[0].same_text(&args[1])))
    } else {
        Err(ExecutionError::InternalError)
    }
}

/// `and a b`: truthy where both arguments are.
pub fn and<B>(_library: &FunctionLibrary<B>, args: &[Output]) -> (res: Result<Output, ExecutionError>)
    ensures
        result_view(res) == binary(
            outputs_view(args@),
            args@.len() == 2 && args@[0]@.status == 0 && args@[1]@.status == 0,
        ),
{
    if args.len() == 2 {
        Ok(answer(args[0].is_truthy() && args[1].is_truthy()))
    } else {
        Err(ExecutionError::InternalError)
    }
}

/// `or a b`: truthy where one of the arguments is.
pub fn or<B>(_library: &FunctionLibrary<B>, args: &[Output]) -> (res: Result<Output, ExecutionError>)
    ensures
        result_view(res) == binary(
            outputs_view(args@),
            args@.len() == 2 && (args@[0]@.status == 0 || args@[1]@.status == 0),
        ),
{
    if args.len() == 2 {
        Ok(answer(args[0].is_truthy() || args[1].is_truthy()))
    } else {
        Err(ExecutionError::InternalError)
    }
}

/// `not a`: truthy where the argument is falsy; an internal error for any
/// other number of arguments than one.
pub fn not<B>(_library: &FunctionLibrary<B>, args: &[Output]) -> (res: Result<Output, ExecutionError>)
    ensures
        result_view(res) == (if args@.len() == 1 {
            Ok::<OutputView, ExecutionErrorView>(verdict(args@[0]@.status != 0))
        } else {
            Err::<OutputView, ExecutionErrorView>(ExecutionErrorView::InternalError)
        }),
{
    if args.len() == 1 {
        Ok(answer(!args[0].is_truthy()))
    } else {
        Err(ExecutionError::InternalError)
    }
}

} // verus!
