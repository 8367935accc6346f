use dog3::builtin::json::{flatten, gron_of, gron_with, Json};
use dog3::runtime::functions::FunctionLibrary;
use dog3::runtime::output::Output;
use serde_json::Value;

fn tree_of(value: &Value) -> Json {
    match value {
        Value::Object(map) => {
            Json::Object(map.iter().map(|(key, member)| (key.clone(), tree_of(member))).collect())
        }
        Value::Array(items) => Json::Array(items.iter().map(tree_of).collect()),
        scalar => Json::Scalar(scalar.to_string()),
    }
}

fn expected(value: &Value, path: &str, output: &mut String) {
    match value {
        Value::Object(map) => {
            output.push_str(&format!("{} = {{}}\n", path));
            for (key, val) in map {
                expected(val, &format!("{}.{}", path, key), output);
            }
        }
        Value::Array(arr) => {
            output.push_str(&format!("{} = []\n", path));
            for (index, val) in arr.iter().enumerate() {
                expected(val, &format!("{}[{}]", path, index), output);
            }
        }
        _ => {
            output.push_str(&format!("{} = {}\n", path, value));
        }
    }
}

#[test]
fn gron_of_a_small_document() {
    let document = Json::Object(vec![
        ("a".to_string(), Json::Scalar("1".to_string())),
        (
            "b".to_string(),
            Json::Array(vec![
                Json::Scalar("true".to_string()),
                Json::Object(vec![("c".to_string(), Json::Scalar("\"x\"".to_string()))]),
                Json::Array(vec![]),
            ]),
        ),
        ("d".to_string(), Json::Object(vec![])),
    ]);
    let out = gron_of(Some(&document));
    assert_eq!(
        out.value(),
        "json = {}\njson.a = 1\njson.b = []\njson.b[0] = true\njson.b[1] = {}\njson.b[1].c = \"x\"\njson.b[2] = []\njson.d = {}\n"
    );
    assert_eq!(out.code(), 0);
}

#[test]
fn gron_without_a_document_is_falsy() {
    let out = gron_of(None);
    assert_eq!(out.value(), "");
    assert_eq!(out.code(), 1);
}

#[test]
fn gron_checks_the_number_of_arguments() {
    let library: FunctionLibrary<u8> = FunctionLibrary::new();
    let scalar = Json::Scalar("null".to_string());
    let one = vec![Output::new("null".to_string(), 0)];
    let two = vec![Output::new("null".to_string(), 0), Output::new("x".to_string(), 0)];
    assert_eq!(gron_with(&library, &one, Some(&scalar)).ok().map(|o| o.value().to_string()), Some("json = null\n".to_string()));
    assert_eq!(gron_with(&library, &one, None).ok().map(|o| o.code()), Some(1));
    assert!(gron_with(&library, &two, Some(&scalar)).is_err());
    assert!(gron_with(&library, &[], None).is_err());
}

#[test]
fn flatten_appends_at_the_given_path() {
    let mut text = "head\n".to_string();
    flatten(&Json::Array(vec![Json::Scalar("1.5".to_string())]), "root.x", &mut text);
    assert_eq!(text, "head\nroot.x = []\nroot.x[0] = 1.5\n");
}

#[test]
fn flatten_agrees_with_the_walk_over_the_parsed_document() {
    for source in [
        "null",
        "12",
        "\"text with \\\"quotes\\\" and \\n\"",
        "[]",
        "{}",
        "[1, [2, [3, []]], {\"k\": [true, false, null]}]",
        "{\"z\": 1, \"a\": {\"é\": [0.5, -3, 1e10]}, \"m\": \"x\", \"list\": [0,1,2,3,4,5,6,7,8,9,10,11]}",
    ] {
        let value: Value = serde_json::from_str(source).unwrap();
        let mut want = String::new();
        expected(&value, "json", &mut want);
        let got = gron_of(Some(&tree_of(&value)));
        assert_eq!(got.value(), want);
        assert_eq!(got.code(), 0);
    }
}
