//! Requests over HTTP: what is asked for, and what an answer becomes. The
//! sending itself is the driver's.

use vstd::prelude::*;
use crate::builtin::logic::verdict;
use crate::runtime::lazy::{parse_u64, parse_u64_spec};
use crate::runtime::output::{outputs_view, Output, OutputView};
use crate::runtime::{ExecutionError, ExecutionErrorView};

verus! {

/// A request: where it goes, the body it carries if it is a `post`, and
/// the seconds to wait for an answer if there is a limit.
#[derive(Debug)]
pub struct Request {
    pub url: String,
    pub body: Option<String>,
    pub timeout: Option<u64>,
}

/// What `get` and `post` do with their arguments: send a request, or
/// answer at once.
#[derive(Debug)]
pub enum Plan {
    Send(Request),
    Answer(Output),
}

/// A [`Request`] as a plain value.
pub struct RequestView {
    pub url: Seq<char>,
    pub body: Option<Seq<char>>,
    pub timeout: Option<u64>,
}

/// A [`Plan`] as a plain value.
pub enum PlanView {
    Send(RequestView),
    Answer(OutputView),
}

/// The plan as a plain value.
pub open spec fn plan_view(plan: Result<Plan, ExecutionError>) -> Result<PlanView, ExecutionErrorView> {
    match plan {
        Ok(Plan::Send(request)) => Ok(
            PlanView::Send(
                RequestView {
                    url: request.url@,
                    body: match request.body {
                        Some(body) => Some(body@),
                        None => None,
                    },
                    timeout: request.timeout,
                },
            ),
        ),
        Ok(Plan::Answer(output)) => Ok(PlanView::Answer(output@)),
        Err(err) => Err(err@),
    }
}

/// The request to `url`, or the falsy empty answer where a time limit is
/// given that denotes no number.
pub open spec fn plan_spec(url: Seq<char>, body: Option<Seq<char>>, limit: Option<Seq<char>>) -> PlanView {
    match limit {
        None => PlanView::Send(RequestView { url, body, timeout: None }),
        Some(text) => match parse_u64_spec(text) {
            Some(seconds) => PlanView::Send(RequestView { url, body, timeout: Some(seconds) }),
            None => PlanView::Answer(verdict(false)),
        },
    }
}

/// What `get` does with its arguments `url [timeout]`.
pub open spec fn get_spec(args: Seq<OutputView>) -> Result<PlanView, ExecutionErrorView> {
    if args.len() == 1 {
        Ok(plan_spec(args[0].text, None, None))
    } else if args.len() == 2 {
        Ok(plan_spec(args[0].text, None, Some(args[1].text)))
    } else {
        Err(ExecutionErrorView::InternalError)
    }
}

/// What `post` does with its arguments `url [body [timeout]]`; without a
/// body argument the body is empty.
pub open spec fn post_spec(args: Seq<OutputView>) -> Result<PlanView, ExecutionErrorView> {
    if args.len() == 1 {
        Ok(plan_spec(args[0].text, Some(Seq::empty()), None))
    } else if args.len() == 2 {
        Ok(plan_spec(args[0].text, Some(args[1].text), None))
    } else if args.len() == 3 {
        Ok(plan_spec(args[0].text, Some(args[1].text), Some(args[2].text)))
    } else {
        Err(ExecutionErrorView::InternalError)
    }
}

/// What an answer becomes: its text under status 0 where the status of
/// the answer is 200, under the status of the answer else; the empty text
/// under the status of the answer where the answer holds no text.
pub open spec fn response_spec(status: i64, body: Option<Seq<char>>) -> OutputView {
    match body {
        Some(text) => OutputView { text, status: if status == 200 {
            0
        } else {
            status
        } },
        None => OutputView { text: Seq::empty(), status },
    }
}

/// The seconds that a time limit denotes, if it denotes a number.
pub fn timeout_of(text: &str) -> (res: Option<u64>)
    ensures
        res == parse_u64_spec(text@),
{
    parse_u64(text)
}

/// The request to `url`, or the answer that a bad time limit gives.
fn plan(url: &Output, body: Option<String>, limit: Option<&Output>) -> (res: Plan)
    ensures
        plan_view(Ok(res)) == Ok::<PlanView, ExecutionErrorView>(
            plan_spec(
                url@.text,
                match body {
                    Some(text) => Some(text@),
                    None => None,
                },
                match limit {
                    Some(text) => Some(text@.text),
                    None => None,
                },
            ),
        ),
{
    let timeout = match limit {
        None => None,
        Some(text) => match timeout_of(text.value()) {
            Some(seconds) => Some(seconds),
            None => {
                return Plan::Answer(Output::new_falsy());
            },
        },
    };
    Plan::Send(Request { url: url.value().to_owned(), body, timeout })
}

/// `get url [timeout]`: what to send.
pub fn get_plan(args: &[Output]) -> (res: Result<Plan, ExecutionError>)
    ensures
        plan_view(res) == get_spec(outputs_view(args@)),
{
    if args.len() == 1 {
        Ok(plan(&args[0], None, None))
    } else if args.len() == 2 {
        Ok(plan(&args[0], None, Some(&args[1])))
    } else {
        Err(ExecutionError::InternalError)
    }
}

/// `post url [body [timeout]]`: what to send.
pub fn post_plan(args: &[Output]) -> (res: Result<Plan, ExecutionError>)
    ensures
        plan_view(res) == post_spec(outputs_view(args@)),
{
    if args.len() == 1 {
        Ok(plan(&args[0], Some(String::new()), None))
    } else if args.len() == 2 {
        Ok(plan(&args[0], Some(args[1].value().to_owned()), None))
    } else if args.len() == 3 {
        Ok(plan(&args[0], Some(args[1].value().to_owned()), Some(&args[2])))
    } else {
        Err(ExecutionError::InternalError)
    }
}

/// The value of an answer with the status `status` and, where it could be
/// read as text, the text `body`.
pub fn response_value(status: i64, body: Option<String>) -> (res: Output)
    ensures
        res@ == response_spec(
            status,
            match body {
                Some(text) => Some(text@),
                None => None,
            },
        ),
{
    match body {
        Some(text) => Output::new(text, if status == 200 {
            0
        } else {
            status
        }),
        None => Output::new(String::new(), status),
    }
}

/// The value of a request that got no answer: the falsy empty value.
pub fn no_response() -> (res: Output)
    ensures
        res@ == verdict(false),
{
    Output::new_falsy()
}

} // verus!
