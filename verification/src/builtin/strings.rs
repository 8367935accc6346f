//! Texts: case, replacement, search and character classes.

use vstd::prelude::*;
use vstd::string::StringExecFns;
use crate::builtin::logic::verdict;
use crate::runtime::functions::FunctionLibrary;
use crate::runtime::output::{join_outputs, joined, outputs_view, Output, OutputView};
use crate::split::{join_slices, lines_of, lines_spec, split_on, split_text, texts_of};
use crate::runtime::{result_view, ExecutionError, ExecutionErrorView};
use crate::text::{chars_of, join_texts};

verus! {

/// The upper-case form of a text, as `str::to_uppercase` computes it.
pub uninterp spec fn uppercase(text: Seq<char>) -> Seq<char>;

/// The lower-case form of a text, as `str::to_lowercase` computes it.
pub uninterp spec fn lowercase(text: Seq<char>) -> Seq<char>;

/// Whether a character has the Unicode property `Alphabetic`, as
/// `char::is_alphabetic` decides it.
pub uninterp spec fn alphabetic(c: char) -> bool;

/// Whether a character is alphabetic or numeric, as
/// `char::is_alphanumeric` decides it.
pub uninterp spec fn alphanumeric(c: char) -> bool;

/// Whether `Regex::new` of the regex crate accepts a pattern.
pub uninterp spec fn regex_accepts(pattern: Seq<char>) -> bool;

/// Whether the regex that `Regex::new` makes of a pattern matches
/// somewhere in a text, as `Regex::is_match` decides it.
pub uninterp spec fn regex_matches(pattern: Seq<char>, text: Seq<char>) -> bool;

/// `str::to_uppercase` of the standard library: the result is the named
/// upper-case form, a function of the text alone.
pub assume_specification[ str::to_uppercase ](text: &str) -> (res: String)
    ensures
        res@ == uppercase(text@),
;

/// `str::to_lowercase` of the standard library: the result is the named
/// lower-case form, a function of the text alone.
pub assume_specification[ str::to_lowercase ](text: &str) -> (res: String)
    ensures
        res@ == lowercase(text@),
;

/// `char::is_alphabetic` of the standard library: the result is the named
/// property of the character.
pub assume_specification[ char::is_alphabetic ](c: char) -> (res: bool)
    ensures
        res == alphabetic(c),
;

/// `char::is_alphanumeric` of the standard library: the result is the
/// named property of the character.
pub assume_specification[ char::is_alphanumeric ](c: char) -> (res: bool)
    ensures
        res == alphanumeric(c),
;

/// Calls `Regex::new` of the regex crate on the pattern and, where that
/// succeeds, `Regex::is_match` on each line. The result is `None`
/// exactly where the pattern is not accepted; else it tells for each
/// line whether the regex matches in it.
#[verifier::external_body]
fn matching_lines(pattern: &str, lines: &Vec<&str>) -> (res: Option<Vec<bool>>)
    ensures
        res is Some <==> regex_accepts(pattern@),
        res matches Some(flags) ==> flags@.len() == lines@.len() && forall|i: int|
            0 <= i < lines@.len() ==> #[trigger] flags@[i] == regex_matches(pattern@, lines@[i]@),
{
    let compiled = regex::Regex::new(pattern).ok()?;
    Some(lines.iter().map(|line| compiled.is_match(line)).collect())
}

/// `text` with `to` before each character and at the end.
pub open spec fn interleaved(text: Seq<char>, to: Seq<char>) -> Seq<char>
    decreases text.len(),
{
    if text.len() == 0 {
        to
    } else {
        interleaved(text.drop_last(), to) + seq![text.last()] + to
    }
}

/// `text` with every occurrence of `from` replaced by `to`; an empty
/// `from` occurs before each character and at the end.
pub open spec fn replaced(text: Seq<char>, from: Seq<char>, to: Seq<char>) -> Seq<char> {
    if from.len() == 0 {
        interleaved(text, to)
    } else {
        join_texts(split_on(text, from), to)
    }
}

/// `upper args..`: the arguments joined as `put` joins them, in upper case.
pub fn upper<B>(_library: &FunctionLibrary<B>, args: &[Output]) -> (res: Result<Output, ExecutionError>)
    ensures
        result_view(res) == Ok::<OutputView, ExecutionErrorView>(
            OutputView {
                text: uppercase(joined(outputs_view(args@)).text),
                status: joined(outputs_view(args@)).status,
            },
        ),
{
    let mut out = join_outputs(args);
    let text = out.value().to_uppercase();
    out.replace(text);
    Ok(out)
}

/// `lower args..`: the arguments joined as `put` joins them, in lower case.
pub fn lower<B>(_library: &FunctionLibrary<B>, args: &[Output]) -> (res: Result<Output, ExecutionError>)
    ensures
        result_view(res) == Ok::<OutputView, ExecutionErrorView>(
            OutputView {
                text: lowercase(joined(outputs_view(args@)).text),
                status: joined(outputs_view(args@)).status,
            },
        ),
{
    let mut out = join_outputs(args);
    let text = out.value().to_lowercase();
    out.replace(text);
    Ok(out)
}

/// `replace target from to`: the target with every occurrence of `from`
/// replaced by `to`, under the status of the target; an internal error
/// for any other number of arguments than three.
pub fn replace<B>(_library: &FunctionLibrary<B>, args: &[Output]) -> (res: Result<
    Output,
    ExecutionError,
>)
    ensures
        result_view(res) == (if args@.len() == 3 {
            Ok::<OutputView, ExecutionErrorView>(
                OutputView {
                    text: replaced(args@[0]@.text, args@[1]@.text, args@[2]@.text),
                    status: args@[0]@.status,
                },
            )
        } else {
            Err::<OutputView, ExecutionErrorView>(ExecutionErrorView::InternalError)
        }),
{
    if args.len() != 3 {
        return Err(ExecutionError::InternalError);
    }
    let from = chars_of(args[1].value());
    let text = if from.len() == 0 {
        let to = args[2].value();
        let chars = chars_of(args[0].value());
        let mut text = String::from_str(to);
        let mut i: usize = 0;
        while i < chars.len()
            invariant
                0 <= i <= chars.len(),
                text@ == interleaved(chars@.take(i as int), to@),
            decreases chars.len() - i,
        {
            text.push(chars[i]);
            text.append(to);
            proof {
                assert(chars@.take(i + 1).drop_last() =~= chars@.take(i as int));
                assert(text@ =~= interleaved(chars@.take(i + 1), to@));
            }
            i += 1;
        }
        assert(chars@.take(chars@.len() as int) =~= chars@);
        text
    } else {
        let parts = split_text(args[0].value(), args[1].value());
        join_slices(&parts, args[2].value())
    };
    Ok(Output::new(text, args[0].code()))
}

/// The lines `lines[..upto]` that `pattern` matches, each with a line feed behind it.
pub open spec fn matched_lines(pattern: Seq<char>, lines: Seq<Seq<char>>, upto: int) -> Seq<char>
    decreases upto,
{
    if upto <= 0 || upto > lines.len() {
        Seq::empty()
    } else if regex_matches(pattern, lines[upto - 1]) {
        matched_lines(pattern, lines, upto - 1) + lines[upto - 1] + seq!['\n']
    } else {
        matched_lines(pattern, lines, upto - 1)
    }
}

/// What `search` answers: the lines of the target that the pattern
/// matches, each with a line feed behind it, under a truthy status; the
/// falsy empty value where the pattern is not accepted.
pub open spec fn search_spec(args: Seq<OutputView>) -> Result<OutputView, ExecutionErrorView> {
    if args.len() != 2 {
        Err(ExecutionErrorView::InternalError)
    } else if !regex_accepts(args[1].text) {
        Ok(verdict(false))
    } else {
        Ok(
            OutputView {
                text: matched_lines(
                    args[1].text,
                    lines_spec(args[0].text),
                    lines_spec(args[0].text).len() as int,
                ),
                status: 0,
            },
        )
    }
}

/// `search target pattern`: the lines of the target that the pattern matches.
pub fn search<B>(_library: &FunctionLibrary<B>, args: &[Output]) -> (res: Result<Output, ExecutionError>)
    ensures
        result_view(res) == search_spec(outputs_view(args@)),
{
    if args.len() != 2 {
        return Err(ExecutionError::InternalError);
    }
    let lines = lines_of(args[0].value());
    let flags = match matching_lines(args[1].value(), &lines) {
        Some(flags) => flags,
        None => {
            return Ok(Output::new_falsy());
        },
    };
    let mut out = Output::new_truthy();
    let mut i: usize = 0;
    let ghost pattern = args@[1]@.text;
    let ghost all = lines_spec(args@[0]@.text);
    proof {
        reveal_strlit("\n");
        assert("\n"@ =~= seq!['\n']);
    }
    while i < lines.len()
        invariant
            0 <= i <= lines.len(),
            flags@.len() == lines@.len(),
            all == texts_of(lines@),
            "\n"@ == seq!['\n'],
            forall|k: int|
                0 <= k < lines@.len() ==> #[trigger] flags@[k] == regex_matches(
                    pattern,
                    lines@[k]@,
                ),
            out@ == (OutputView { text: matched_lines(pattern, all, i as int), status: 0 }),
        decreases lines.len() - i,
    {
        proof {
            assert(all[i as int] == lines@[i as int]@);
        }
        if flags[i] {
            out.append_str(lines[i]);
            out.append_str("\n");
            assert(out@.text =~= matched_lines(pattern, all, i + 1));
        }
        i += 1;
    }
    Ok(out)
}

/// Whether every character of every argument passes.
pub open spec fn all_chars(args: Seq<OutputView>, pass: spec_fn(char) -> bool) -> bool {
    forall|i: int, k: int|
        0 <= i < args.len() && 0 <= k < args[i].text.len() ==> pass(#[trigger] args[i].text[k])
}

/// `is_alpha args..`: truthy where every character of every argument is alphabetic.
pub fn is_alpha<B>(_library: &FunctionLibrary<B>, args: &[Output]) -> (res: Result<
    Output,
    ExecutionError,
>)
    ensures
        result_view(res) == Ok::<OutputView, ExecutionErrorView>(
            verdict(all_chars(outputs_view(args@), |c: char| alphabetic(c))),
        ),
{
    let mut i: usize = 0;
    while i < args.len()
        invariant
            0 <= i <= args.len(),
            forall|a: int, k: int|
                0 <= a < i && 0 <= k < args@[a]@.text.len() ==> alphabetic(
                    #[trigger] args@[a]@.text[k],
                ),
        decreases args.len() - i,
    {
        let chars = chars_of(args[i].value());
        let mut k: usize = 0;
        while k < chars.len()
            invariant
                0 <= k <= chars.len(),
                0 <= i < args.len(),
                chars@ == args@[i as int]@.text,
                forall|j: int| 0 <= j < k ==> alphabetic(#[trigger] chars@[j]),
            decreases chars.len() - k,
        {
            if !chars[k].is_alphabetic() {
                proof {
                    assert(outputs_view(args@)[i as int].text[k as int] == chars@[k as int]);
                }
                return Ok(Output::new_falsy());
            }
            k += 1;
        }
        i += 1;
    }
    proof {
        assert forall|a: int, k: int|
            0 <= a < outputs_view(args@).len() && 0 <= k < outputs_view(
                args@,
            )[a].text.len() implies alphabetic(#[trigger] outputs_view(args@)[a].text[k]) by {
            assert(outputs_view(args@)[a].text[k] == args@[a]@.text[k]);
        }
    }
    Ok(Output::new_truthy())
}

/// `is_alphanumeric args..`: truthy where every character of every
/// argument is alphabetic or numeric.
pub fn is_alphanumeric<B>(_library: &FunctionLibrary<B>, args: &[Output]) -> (res: Result<
    Output,
    ExecutionError,
>)
    ensures
        result_view(res) == Ok::<OutputView, ExecutionErrorView>(
            verdict(all_chars(outputs_view(args@), |c: char| alphanumeric(c))),
        ),
{
    let mut i: usize = 0;
    while i < args.len()
        invariant
            0 <= i <= args.len(),
            forall|a: int, k: int|
                0 <= a < i && 0 <= k < args@[a]@.text.len() ==> alphanumeric(
                    #[trigger] args@[a]@.text[k],
                ),
        decreases args.len() - i,
    {
        let chars = chars_of(args[i].value());
        let mut k: usize = 0;
        while k < chars.len()
            invariant
                0 <= k <= chars.len(),
                0 <= i < args.len(),
                chars@ == args@[i as int]@.text,
                forall|j: int| 0 <= j < k ==> alphanumeric(#[trigger] chars@[j]),
            decreases chars.len() - k,
        {
            if !chars[k].is_alphanumeric() {
                proof {
                    assert(outputs_view(args@)[i as int].text[k as int] == chars@[k as int]);
                }
                return Ok(Output::new_falsy());
            }
            k += 1;
        }
        i += 1;
    }
    proof {
        assert forall|a: int, k: int|
            0 <= a < outputs_view(args@).len() && 0 <= k < outputs_view(
                args@,
            )[a].text.len() implies alphanumeric(#[trigger] outputs_view(args@)[a].text[k]) by {
            assert(outputs_view(args@)[a].text[k] == args@[a]@.text[k]);
        }
    }
    Ok(Output::new_truthy())
}

} // verus!
