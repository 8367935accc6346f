//! Joining values, setting a status, and showing the source of a function.

use vstd::prelude::*;
use crate::runtime::functions::{listed_entries, FunctionLibrary};
use crate::runtime::lazy::parse_i64_spec;
use crate::runtime::output::{join_outputs, joined, outputs_view, Output, OutputView};
use crate::runtime::{result_view, ExecutionError, ExecutionErrorView};
use crate::text::{join_texts, push_signed_decimal, signed_decimal_text};

verus! {

/// `put args..`: the arguments joined by single spaces, with the status
/// of the last.
pub fn put<B>(_library: &FunctionLibrary<B>, args: &[Output]) -> (res: Result<Output, ExecutionError>)
    ensures
        result_view(res) == Ok::<OutputView, ExecutionErrorView>(joined(outputs_view(args@))),
{
    Ok(join_outputs(args))
}

/// `pln args..`: as `put`, with a line break at the end.
pub fn pln<B>(_library: &FunctionLibrary<B>, args: &[Output]) -> (res: Result<Output, ExecutionError>)
    ensures
        result_view(res) == Ok::<OutputView, ExecutionErrorView>(
            OutputView {
                text: joined(outputs_view(args@)).text + seq!['\n'],
                status: joined(outputs_view(args@)).status,
            },
        ),
{
    let mut out = join_outputs(args);
    proof {
        reveal_strlit("\n");
        assert("\n"@ =~= seq!['\n']);
    }
    out.append_str("\n");
    Ok(out)
}

/// What `status` answers.
///
/// With one argument: the status of the argument as a decimal numeral,
/// under that same status. With two: the text of the first under the
/// status that the second denotes, or under 1 where it denotes none.
pub open spec fn status_spec(args: Seq<OutputView>) -> Result<OutputView, ExecutionErrorView> {
    if args.len() == 1 {
        Ok(OutputView { text: signed_decimal_text(args[0].status as int), status: args[0].status })
    } else if args.len() == 2 {
        Ok(
            OutputView {
                text: args[0].text,
                status: match parse_i64_spec(args[1].text) {
                    Some(code) => code,
                    None => 1,
                },
            },
        )
    } else {
        Err(ExecutionErrorView::InternalError)
    }
}

/// `status value [status]`: reads or sets the status of a value.
pub fn status<B>(_library: &FunctionLibrary<B>, args: &[Output]) -> (res: Result<Output, ExecutionError>)
    ensures
        result_view(res) == status_spec(outputs_view(args@)),
{
    if args.len() == 1 {
        let code = args[0].code();
        let mut text = String::new();
        push_signed_decimal(&mut text, code);
        assert(text@ =~= signed_decimal_text(code as int));
        Ok(Output::new(text, code))
    } else if args.len() == 2 {
        let code = match args[1].to_i64() {
            Some(code) => code,
            None => 1,
        };
        Ok(Output::new(args[0].value().to_owned(), code))
    } else {
        Err(ExecutionError::InternalError)
    }
}

/// `src function`: the sources of the functions of that name, under a
/// truthy status; an internal error for any other number of arguments
/// than one.
pub fn src<B>(library: &FunctionLibrary<B>, args: &[Output]) -> (res: Result<Output, ExecutionError>)
    ensures
        result_view(res) == (if args@.len() == 1 {
            Ok::<OutputView, ExecutionErrorView>(
                OutputView {
                    text: join_texts(
                        listed_entries(
                            library@,
                            true,
                            true,
                            Some(args@[0]@.text),
                            library@.len() as int,
                        ),
                        seq!['\n'],
                    ),
                    status: 0,
                },
            )
        } else {
            Err::<OutputView, ExecutionErrorView>(ExecutionErrorView::InternalError)
        }),
{
    if args.len() == 1 {
        proof {
            reveal_strlit("\n");
            assert("\n"@ =~= seq!['\n']);
        }
        Ok(Output::new_truthy_with(library.get_scripts(true, true, Some(args[0].value()))))
    } else {
        Err(ExecutionError::InternalError)
    }
}

} // verus!
