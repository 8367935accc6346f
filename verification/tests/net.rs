use dog3::builtin::net::{
    get_plan, no_response, post_plan, response_value, timeout_of, Plan,
};
use dog3::runtime::lazy::parse_u64;
use dog3::runtime::output::Output;
use dog3::runtime::ExecutionError;

fn texts(values: &[&str]) -> Vec<Output> {
    values.iter().map(|text| Output::new(text.to_string(), 0)).collect()
}

#[derive(Debug, PartialEq)]
enum Shown {
    Send(String, Option<String>, Option<u64>),
    Answer(String, i64),
    Internal,
}

fn shown(plan: Result<Plan, ExecutionError>) -> Shown {
    match plan {
        Ok(Plan::Send(request)) => Shown::Send(request.url, request.body, request.timeout),
        Ok(Plan::Answer(output)) => Shown::Answer(output.value().to_string(), output.code()),
        Err(ExecutionError::InternalError) => Shown::Internal,
        Err(_) => panic!("only the internal error is expected"),
    }
}

#[test]
fn get_reads_url_and_timeout() {
    assert_eq!(shown(get_plan(&texts(&["http://x"]))), Shown::Send("http://x".to_string(), None, None));
    assert_eq!(
        shown(get_plan(&texts(&["http://x", "30"]))),
        Shown::Send("http://x".to_string(), None, Some(30))
    );
    assert_eq!(shown(get_plan(&texts(&["http://x", "soon"]))), Shown::Answer(String::new(), 1));
    assert_eq!(shown(get_plan(&texts(&["http://x", "-1"]))), Shown::Answer(String::new(), 1));
    assert_eq!(shown(get_plan(&texts(&[]))), Shown::Internal);
    assert_eq!(shown(get_plan(&texts(&["a", "1", "2"]))), Shown::Internal);
}

#[test]
fn post_reads_url_body_and_timeout() {
    assert_eq!(
        shown(post_plan(&texts(&["http://x"]))),
        Shown::Send("http://x".to_string(), Some(String::new()), None)
    );
    assert_eq!(
        shown(post_plan(&texts(&["http://x", "data"]))),
        Shown::Send("http://x".to_string(), Some("data".to_string()), None)
    );
    assert_eq!(
        shown(post_plan(&texts(&["http://x", "data", "5"]))),
        Shown::Send("http://x".to_string(), Some("data".to_string()), Some(5))
    );
    assert_eq!(shown(post_plan(&texts(&["http://x", "data", "5s"]))), Shown::Answer(String::new(), 1));
    assert_eq!(shown(post_plan(&texts(&[]))), Shown::Internal);
    assert_eq!(shown(post_plan(&texts(&["a", "b", "1", "2"]))), Shown::Internal);
}

#[test]
fn answers_become_values() {
    let ok = response_value(200, Some("body".to_string()));
    assert_eq!((ok.value(), ok.code()), ("body", 0));
    let missing = response_value(404, Some("not here".to_string()));
    assert_eq!((missing.value(), missing.code()), ("not here", 404));
    let unreadable = response_value(200, None);
    assert_eq!((unreadable.value(), unreadable.code()), ("", 200));
    let failed = response_value(500, None);
    assert_eq!((failed.value(), failed.code()), ("", 500));
    let none = no_response();
    assert_eq!((none.value(), none.code()), ("", 1));
}

#[test]
fn timeouts_are_unsigned_numerals() {
    for text in [
        "", "0", "+0", "-0", "7", "+7", "-7", "007", " 7", "7 ", "7s", "+", "++1", "1.5",
        "18446744073709551615", "18446744073709551616", "99999999999999999999999999999", "٣",
    ] {
        assert_eq!(timeout_of(text), text.parse::<u64>().ok(), "reading {:?}", text);
        assert_eq!(parse_u64(text), text.parse::<u64>().ok(), "reading {:?}", text);
    }
}
