//! Lists: texts cut into pieces by a separator.

use vstd::prelude::*;
use crate::builtin::logic::verdict;
use crate::runtime::functions::FunctionLibrary;
use crate::runtime::lazy::parse_i64_spec;
use crate::runtime::output::{outputs_view, split_spec, Output, OutputView};
use crate::runtime::{result_view, ExecutionError, ExecutionErrorView};
use crate::text::{
    decimal_text, join_strings, join_texts, push_decimal, push_signed_decimal,
    signed_decimal_text, texts,
};

verus! {

/// The separator that the argument `index` gives, if there is such an argument.
pub open spec fn separator_at(args: Seq<OutputView>, index: int) -> Option<Seq<char>> {
    if 0 <= index < args.len() {
        Some(args[index].text)
    } else {
        None
    }
}

/// What joins the pieces of a result: the separator, or a space without one.
pub open spec fn glue(separator: Option<Seq<char>>) -> Seq<char> {
    match separator {
        Some(text) => text,
        None => seq![' '],
    }
}

/// A truthy value with the given text.
pub open spec fn truthy_with(text: Seq<char>) -> OutputView {
    OutputView { text, status: 0 }
}

/// The numbers from `min` on in steps of `step`, below `max`.
pub open spec fn range_numbers(min: int, max: int, step: int) -> Seq<int>
    decreases (if min < max {
        max - min
    } else {
        0
    }),
{
    if min >= max || step <= 0 {
        Seq::empty()
    } else {
        seq![min] + range_numbers(min + step, max, step)
    }
}

/// The decimal numerals of `numbers`.
pub open spec fn numerals(numbers: Seq<int>) -> Seq<Seq<char>> {
    Seq::new(numbers.len(), |i: int| signed_decimal_text(numbers[i]))
}

/// The integer that the argument `index` denotes, or `fallback` where
/// there is no such argument.
pub open spec fn number_at(args: Seq<OutputView>, index: int, fallback: i64) -> Option<i64> {
    if 0 <= index < args.len() {
        parse_i64_spec(args[index].text)
    } else {
        Some(fallback)
    }
}

/// What `range` answers.
///
/// The arguments are `max`, or `min max`, or `min max step`, or `min max
/// step separator`; `min` is 0 and `step` is 1 where they are not given.
/// The answer is the numerals of the numbers from `min` on in steps of
/// `step` below `max`, joined by the separator. It is the falsy empty
/// value where an argument denotes no integer and where the step is not
/// positive.
pub open spec fn range_spec(args: Seq<OutputView>) -> Result<OutputView, ExecutionErrorView> {
    if args.len() < 1 || args.len() > 4 {
        Err(ExecutionErrorView::InternalError)
    } else {
        let min = if args.len() == 1 {
            Some(0i64)
        } else {
            parse_i64_spec(args[0].text)
        };
        let max = if args.len() == 1 {
            parse_i64_spec(args[0].text)
        } else {
            parse_i64_spec(args[1].text)
        };
        let step = number_at(args, 2, 1);
        if min is None || max is None || step is None || step->0 <= 0 {
            Ok(verdict(false))
        } else {
            Ok(
                truthy_with(
                    join_texts(
                        numerals(range_numbers(min->0 as int, max->0 as int, step->0 as int)),
                        glue(separator_at(args, 3)),
                    ),
                ),
            )
        }
    }
}

/// What `len` answers: the number of pieces of the first argument, as a numeral.
pub open spec fn len_spec(args: Seq<OutputView>) -> Result<OutputView, ExecutionErrorView> {
    if args.len() == 1 || args.len() == 2 {
        Ok(truthy_with(decimal_text(split_spec(args[0].text, separator_at(args, 1)).len())))
    } else {
        Err(ExecutionErrorView::InternalError)
    }
}

/// What `first` and `last` answer: the first, or the last, `n` pieces of
/// the first argument, joined again; the falsy empty value where the
/// second argument denotes no count or more than there are pieces.
pub open spec fn ends_spec(args: Seq<OutputView>, from_start: bool) -> Result<
    OutputView,
    ExecutionErrorView,
> {
    if args.len() == 2 || args.len() == 3 {
        let pieces = split_spec(args[0].text, separator_at(args, 2));
        match parse_i64_spec(args[1].text) {
            Some(n) => if 0 <= n <= pieces.len() {
                Ok(
                    truthy_with(
                        join_texts(
                            if from_start {
                                pieces.subrange(0, n as int)
                            } else {
                                pieces.subrange(pieces.len() - n, pieces.len() as int)
                            },
                            glue(separator_at(args, 2)),
                        ),
                    ),
                )
            } else {
                Ok(verdict(false))
            },
            None => Ok(verdict(false)),
        }
    } else {
        Err(ExecutionErrorView::InternalError)
    }
}

/// What `append` answers: the pieces of the first argument and then those
/// of the second, joined again.
pub open spec fn append_spec(args: Seq<OutputView>) -> Result<OutputView, ExecutionErrorView> {
    if args.len() == 2 || args.len() == 3 {
        Ok(
            truthy_with(
                join_texts(
                    split_spec(args[0].text, separator_at(args, 2)) + split_spec(
                        args[1].text,
                        separator_at(args, 2),
                    ),
                    glue(separator_at(args, 2)),
                ),
            ),
        )
    } else {
        Err(ExecutionErrorView::InternalError)
    }
}

/// The separator that the argument `index` gives, if there is one.
fn separator<'a>(args: &'a [Output], index: usize) -> (res: Option<&'a Output>)
    ensures
        crate::runtime::output::separator_text(res) == separator_at(
            outputs_view(args@),
            index as int,
        ),
{
    if index < args.len() {
        Some(&args[index])
    } else {
        None
    }
}

/// The text that joins the pieces again.
fn glue_of<'a>(separator: Option<&'a Output>) -> (res: &'a str)
    ensures
        res@ == glue(crate::runtime::output::separator_text(separator)),
{
    match separator {
        Some(s) => s.value(),
        None => {
            proof {
                reveal_strlit(" ");
                assert(" "@ =~= seq![' ']);
            }
            " "
        },
    }
}

/// The pieces of `list`.
fn pieces_of(list: &Output, separator: Option<&Output>) -> (res: Vec<String>)
    ensures
        texts(res@) == split_spec(list@.text, crate::runtime::output::separator_text(separator)),
{
    let res = list.split(separator);
    assert(texts(res@) =~= split_spec(
        list@.text,
        crate::runtime::output::separator_text(separator),
    ));
    res
}

/// `len list [separator]`: the number of pieces.
pub fn len<B>(_library: &FunctionLibrary<B>, args: &[Output]) -> (res: Result<Output, ExecutionError>)
    ensures
        result_view(res) == len_spec(outputs_view(args@)),
{
    if args.len() == 1 || args.len() == 2 {
        let pieces = pieces_of(&args[0], separator(args, 1));
        let mut text = String::new();
        push_decimal(&mut text, pieces.len() as u128);
        assert(text@ =~= decimal_text(pieces@.len()));
        Ok(Output::new_truthy_with(text))
    } else {
        Err(ExecutionError::InternalError)
    }
}

/// The first or the last `n` pieces of a list.
fn ends(args: &[Output], from_start: bool) -> (res: Result<Output, ExecutionError>)
    ensures
        result_view(res) == ends_spec(outputs_view(args@), from_start),
{
    if args.len() == 2 || args.len() == 3 {
        let separator = separator(args, 2);
        let n: i64 = match args[1].to_i64() {
            Some(n) => n,
            None => {
                return Ok(Output::new_falsy());
            },
        };
        let pieces = pieces_of(&args[0], separator);
        if n < 0 || n as u128 > pieces.len() as u128 {
            return Ok(Output::new_falsy());
        }
        let n: usize = n as usize;
        let text = if from_start {
            join_strings(&pieces, 0, n, glue_of(separator))
        } else {
            join_strings(&pieces, pieces.len() - n, pieces.len(), glue_of(separator))
        };
        Ok(Output::new_truthy_with(text))
    } else {
        Err(ExecutionError::InternalError)
    }
}

/// `first list n [separator]`: the first `n` pieces.
pub fn first<B>(_library: &FunctionLibrary<B>, args: &[Output]) -> (res: Result<Output, ExecutionError>)
    ensures
        result_view(res) == ends_spec(outputs_view(args@), true),
{
    ends(args, true)
}

/// `last list n [separator]`: the last `n` pieces.
pub fn last<B>(_library: &FunctionLibrary<B>, args: &[Output]) -> (res: Result<Output, ExecutionError>)
    ensures
        result_view(res) == ends_spec(outputs_view(args@), false),
{
    ends(args, false)
}

/// `append left right [separator]`: the pieces of both lists as one list.
pub fn append<B>(_library: &FunctionLibrary<B>, args: &[Output]) -> (res: Result<
    Output,
    ExecutionError,
>)
    ensures
        result_view(res) == append_spec(outputs_view(args@)),
{
    if args.len() == 2 || args.len() == 3 {
        let separator = separator(args, 2);
        let mut pieces = pieces_of(&args[0], separator);
        let mut right = pieces_of(&args[1], separator);
        let ghost left_texts = texts(pieces@);
        let ghost right_texts = texts(right@);
        pieces.append(&mut right);
        assert(texts(pieces@) =~= left_texts + right_texts);
        let text = join_strings(&pieces, 0, pieces.len(), glue_of(separator));
        assert(texts(pieces@).subrange(0, pieces@.len() as int) =~= texts(pieces@));
        Ok(Output::new_truthy_with(text))
    } else {
        Err(ExecutionError::InternalError)
    }
}

/// The numerals of the numbers from `min` on in steps of `step` below `max`.
fn range_texts(min: i64, max: i64, step: i64) -> (res: Vec<String>)
    requires
        step > 0,
    ensures
        texts(res@) == numerals(range_numbers(min as int, max as int, step as int)),
{
    let mut res: Vec<String> = Vec::new();
    let mut x: i64 = min;
    let ghost whole = range_numbers(min as int, max as int, step as int);
    let ghost mut done: Seq<int> = Seq::empty();
    proof {
        assert(texts(res@) =~= numerals(done));
        assert(done + range_numbers(x as int, max as int, step as int) =~= whole);
    }
    while x < max
        invariant_except_break
            texts(res@) == numerals(done),
            whole == done + range_numbers(x as int, max as int, step as int),
        invariant
            step > 0,
        ensures
            texts(res@) == numerals(whole),
        decreases max - x,
    {
        let mut text = String::new();
        push_signed_decimal(&mut text, x);
        let ghost before = done;
        proof {
            assert(text@ =~= signed_decimal_text(x as int));
            done = done.push(x as int);
            assert(texts(res@).len() == res@.len());
            assert(numerals(before).len() == before.len());
            assert(texts(res@.push(text)).len() == res@.len() + 1);
            assert(numerals(done).len() == done.len());
            assert forall|k: int| 0 <= k < done.len() implies #[trigger] texts(res@.push(text))[k]
                == numerals(done)[k] by {
                if k < before.len() {
                    assert(texts(res@)[k] == numerals(before)[k]);
                    assert(texts(res@)[k] == res@[k]@);
                    assert(numerals(before)[k] == signed_decimal_text(before[k]));
                }
            }
            assert(texts(res@.push(text)) =~= numerals(done));
            assert(before + (seq![x as int] + range_numbers(x + step, max as int, step as int))
                =~= done + range_numbers(x + step, max as int, step as int));
        }
        res.push(text);
        if step as i128 >= max as i128 - x as i128 {
            proof {
                assert(range_numbers(x + step, max as int, step as int) =~= Seq::<int>::empty());
                assert(done + Seq::<int>::empty() =~= done);
            }
            break ;
        }
        x = x + step;
    }
    proof {
        if x >= max {
            assert(range_numbers(x as int, max as int, step as int) =~= Seq::<int>::empty());
            assert(done + Seq::<int>::empty() =~= done);
        }
    }
    res
}

/// `range [min] max [step [separator]]`: a list of numbers.
pub fn range<B>(_library: &FunctionLibrary<B>, args: &[Output]) -> (res: Result<Output, ExecutionError>)
    ensures
        result_view(res) == range_spec(outputs_view(args@)),
{
    if args.len() < 1 || args.len() > 4 {
        return Err(ExecutionError::InternalError);
    }
    let min = if args.len() == 1 {
        Some(0i64)
    } else {
        args[0].to_i64()
    };
    let max = if args.len() == 1 {
        args[0].to_i64()
    } else {
        args[1].to_i64()
    };
    let step = if args.len() > 2 {
        args[2].to_i64()
    } else {
        Some(1i64)
    };
    match (min, max, step) {
        (Some(min), Some(max), Some(step)) => {
            if step <= 0 {
                return Ok(Output::new_falsy());
            }
            let numbers = range_texts(min, max, step);
            let text = join_strings(&numbers, 0, numbers.len(), glue_of(separator(args, 3)));
            assert(texts(numbers@).subrange(0, numbers@.len() as int) =~= texts(numbers@));
            Ok(Output::new_truthy_with(text))
        },
        _ => Ok(Output::new_falsy()),
    }
}

} // verus!
