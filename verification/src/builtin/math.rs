//! Random whole numbers.

use vstd::prelude::*;
use crate::builtin::iter::truthy_with;
use crate::builtin::logic::verdict;
use crate::runtime::functions::FunctionLibrary;
use crate::runtime::lazy::parse_i64_spec;
use crate::runtime::output::{outputs_view, Output, OutputView};
use crate::runtime::{result_view, ExecutionError, ExecutionErrorView};
use crate::text::{push_signed_decimal, signed_decimal_text};

verus! {

/// Calls `Rng::gen_range` of the rand crate on the thread's generator
/// with the range `min..max`. A range that is not empty never panics, and
/// whatever is drawn lies in it; nothing else is known of the number.
#[verifier::external_body]
fn draw(min: i64, max: i64) -> (res: i64)
    requires
        min < max,
    ensures
        min <= res < max,
{
    rand::Rng::gen_range(&mut rand::thread_rng(), min..max)
}

/// The bounds that the arguments of `random` give: `0` and the argument,
/// or the two arguments; `None` where one of them denotes no integer.
pub open spec fn random_bounds(args: Seq<OutputView>) -> Option<(i64, i64)> {
    let min = if args.len() == 1 {
        Some(0i64)
    } else {
        parse_i64_spec(args[0].text)
    };
    let max = if args.len() == 1 {
        parse_i64_spec(args[0].text)
    } else {
        parse_i64_spec(args[1].text)
    };
    if (args.len() == 1 || args.len() == 2) && min is Some && max is Some {
        Some((min->0, max->0))
    } else {
        None
    }
}

/// What `random` answers when `drawn` is the number that was drawn: the
/// numeral of the lower bound where the bounds hold no number between
/// them, else the numeral of the number drawn; the falsy empty value
/// where a bound denotes no integer.
pub open spec fn random_spec(args: Seq<OutputView>, drawn: i64) -> Result<
    OutputView,
    ExecutionErrorView,
> {
    if args.len() != 1 && args.len() != 2 {
        Err(ExecutionErrorView::InternalError)
    } else {
        match random_bounds(args) {
            None => Ok(verdict(false)),
            Some((min, max)) => Ok(
                truthy_with(
                    signed_decimal_text(
                        if min >= max {
                            min as int
                        } else {
                            drawn as int
                        },
                    ),
                ),
            ),
        }
    }
}

/// The number lies within the bounds, where they hold a number between them.
pub open spec fn within(bounds: Option<(i64, i64)>, drawn: i64) -> bool {
    match bounds {
        Some((min, max)) => min < max ==> min <= drawn < max,
        None => true,
    }
}

/// The bounds that the arguments give.
pub fn bounds(args: &[Output]) -> (res: Option<(i64, i64)>)
    requires
        args@.len() == 1 || args@.len() == 2,
    ensures
        res == random_bounds(outputs_view(args@)),
{
    let min = if args.len() == 1 {
        Some(0i64)
    } else {
        args[0].to_i64()
    };
    let max = if args.len() == 1 {
        args[0].to_i64()
    } else {
        args[1].to_i64()
    };
    match (min, max) {
        (Some(min), Some(max)) => Some((min, max)),
        _ => None,
    }
}

/// The answer of `random` to `args` when `drawn` is the number drawn.
pub fn random_with(args: &[Output], drawn: i64) -> (res: Result<Output, ExecutionError>)
    ensures
        result_view(res) == random_spec(outputs_view(args@), drawn),
{
    if args.len() != 1 && args.len() != 2 {
        return Err(ExecutionError::InternalError);
    }
    match bounds(args) {
        None => Ok(Output::new_falsy()),
        Some((min, max)) => {
            let number = if min >= max {
                min
            } else {
                drawn
            };
            let mut text = String::new();
            push_signed_decimal(&mut text, number);
            assert(text@ =~= signed_decimal_text(number as int));
            Ok(Output::new_truthy_with(text))
        },
    }
}

/// `random [min] max`: a number drawn from `min` up to, not including,
/// `max`. Whatever is drawn, the answer is that of `random_with` for a
/// number within the bounds.
pub fn random<B>(_library: &FunctionLibrary<B>, args: &[Output]) -> (res: Result<
    Output,
    ExecutionError,
>)
    ensures
        exists|drawn: i64|
            result_view(res) == random_spec(outputs_view(args@), drawn) && within(
                random_bounds(outputs_view(args@)),
                drawn,
            ),
{
    if args.len() != 1 && args.len() != 2 {
        let res = random_with(args, 0);
        return res;
    }
    let drawn = match bounds(args) {
        Some((min, max)) => if min < max {
            draw(min, max)
        } else {
            min
        },
        None => 0,
    };
    random_with(args, drawn)
}

} // verus!
