//! JSON made greppable: one line for each node of a document.

use vstd::prelude::*;
use vstd::string::StringExecFns;
use crate::builtin::logic::verdict;
use crate::runtime::functions::FunctionLibrary;
use crate::runtime::output::{outputs_view, Output, OutputView};
use crate::runtime::{result_view, ExecutionError, ExecutionErrorView};
use crate::text::{decimal_text, push_decimal};

verus! {

/// A JSON document: an object, an array, or a scalar in the form in which
/// it is written.
#[derive(Debug)]
pub enum Json {
    Object(Vec<(String, Json)>),
    Array(Vec<Json>),
    Scalar(String),
}

/// A [`Json`] as a plain value.
pub enum JsonView {
    Object(Seq<(Seq<char>, JsonView)>),
    Array(Seq<JsonView>),
    Scalar(Seq<char>),
}

/// The members `entries[..upto]` as plain values.
pub open spec fn members_view(entries: Seq<(String, Json)>, upto: int) -> Seq<(Seq<char>, JsonView)>
    decreases entries, upto,
{
    if upto <= 0 || upto > entries.len() {
        Seq::empty()
    } else {
        members_view(entries, upto - 1).push((entries[upto - 1].0@, json_view(entries[upto - 1].1)))
    }
}

/// The items `items[..upto]` as plain values.
pub open spec fn items_view(items: Seq<Json>, upto: int) -> Seq<JsonView>
    decreases items, upto,
{
    if upto <= 0 || upto > items.len() {
        Seq::empty()
    } else {
        items_view(items, upto - 1).push(json_view(items[upto - 1]))
    }
}

/// The document as a plain value.
pub open spec fn json_view(json: Json) -> JsonView
    decreases json,
{
    match json {
        Json::Object(entries) => JsonView::Object(members_view(entries@, entries@.len() as int)),
        Json::Array(items) => JsonView::Array(items_view(items@, items@.len() as int)),
        Json::Scalar(text) => JsonView::Scalar(text@),
    }
}

/// The lines of the members `members[..upto]` of an object at `path`.
pub open spec fn flat_members(members: Seq<(Seq<char>, JsonView)>, path: Seq<char>, upto: int) -> Seq<
    char,
>
    decreases members, upto,
{
    if upto <= 0 || upto > members.len() {
        Seq::empty()
    } else {
        flat_members(members, path, upto - 1) + flat(
            members[upto - 1].1,
            path + seq!['.'] + members[upto - 1].0,
        )
    }
}

/// The lines of the items `items[..upto]` of an array at `path`.
pub open spec fn flat_items(items: Seq<JsonView>, path: Seq<char>, upto: int) -> Seq<char>
    decreases items, upto,
{
    if upto <= 0 || upto > items.len() {
        Seq::empty()
    } else {
        flat_items(items, path, upto - 1) + flat(
            items[upto - 1],
            path + seq!['['] + decimal_text((upto - 1) as nat) + seq![']'],
        )
    }
}

/// The lines of a document at `path`: one line `path = ..` for the
/// document itself, then the lines of its members or items, each at the
/// path that leads to it.
pub open spec fn flat(json: JsonView, path: Seq<char>) -> Seq<char>
    decreases json,
{
    match json {
        JsonView::Object(members) => path + " = {}\n"@ + flat_members(
            members,
            path,
            members.len() as int,
        ),
        JsonView::Array(items) => path + " = []\n"@ + flat_items(items, path, items.len() as int),
        JsonView::Scalar(text) => path + " = "@ + text + "\n"@,
    }
}

/// Adds the lines of `value` at `path` to the end of `output`.
pub fn flatten(value: &Json, path: &str, output: &mut String)
    ensures
        final(output)@ == old(output)@ + flat(json_view(*value), path@),
    decreases value,
{
    let ghost before = output@;
    match value {
        Json::Object(entries) => {
            output.append(path);
            output.append(" = {}\n");
            let ghost head = output@;
            let ghost members = members_view(entries@, entries@.len() as int);
            let mut k: usize = 0;
            proof {
                lemma_members_view(entries@, entries@.len() as int);
                assert(head + flat_members(members, path@, 0) =~= head);
            }
            while k < entries.len()
                invariant
                    0 <= k <= entries.len(),
                    members == members_view(entries@, entries@.len() as int),
                    members.len() == entries@.len(),
                    forall|i: int|
                        0 <= i < entries@.len() ==> #[trigger] members[i] == (
                            entries@[i].0@,
                            json_view(entries@[i].1),
                        ),
                    output@ == head + flat_members(members, path@, k as int),
                    *value == Json::Object(*entries),
                decreases entries.len() - k,
            {
                let mut inner = String::from_str(path);
                inner.append(".");
                inner.append(entries[k].0.as_str());
                proof {
                    reveal_strlit(".");
                    assert("."@ =~= seq!['.']);
                    assert(inner@ =~= path@ + seq!['.'] + members[k as int].0);
                }
                proof {
                    vstd::std_specs::vec::axiom_vec_index_decreases(*entries, k as int);
                    assert(decreases_to!(*value => value->Object_0));
                }
                flatten(&entries[k].1, inner.as_str(), output);
                proof {
                    assert(output@ =~= head + flat_members(members, path@, k + 1));
                }
                k += 1;
            }
            proof {
                assert(output@ =~= before + flat(json_view(*value), path@));
            }
        },
        Json::Array(items) => {
            output.append(path);
            output.append(" = []\n");
            let ghost head = output@;
            let ghost views = items_view(items@, items@.len() as int);
            let mut k: usize = 0;
            proof {
                lemma_items_view(items@, items@.len() as int);
                assert(head + flat_items(views, path@, 0) =~= head);
            }
            while k < items.len()
                invariant
                    0 <= k <= items.len(),
                    views == items_view(items@, items@.len() as int),
                    views.len() == items@.len(),
                    forall|i: int|
                        0 <= i < items@.len() ==> #[trigger] views[i] == json_view(items@[i]),
                    output@ == head + flat_items(views, path@, k as int),
                    *value == Json::Array(*items),
                decreases items.len() - k,
            {
                let mut inner = String::from_str(path);
                inner.append("[");
                push_decimal(&mut inner, k as u128);
                inner.append("]");
                proof {
                    reveal_strlit("[");
                    reveal_strlit("]");
                    assert("["@ =~= seq!['[']);
                    assert("]"@ =~= seq![']']);
                    assert(inner@ =~= path@ + seq!['['] + decimal_text(k as nat) + seq![']']);
                }
                proof {
                    vstd::std_specs::vec::axiom_vec_index_decreases(*items, k as int);
                    assert(decreases_to!(*value => value->Array_0));
                }
                flatten(&items[k], inner.as_str(), output);
                proof {
                    assert(output@ =~= head + flat_items(views, path@, k + 1));
                }
                k += 1;
            }
            proof {
                assert(output@ =~= before + flat(json_view(*value), path@));
            }
        },
        Json::Scalar(text) => {
            output.append(path);
            output.append(" = ");
            output.append(text.as_str());
            output.append("\n");
            proof {
                assert(output@ =~= before + flat(json_view(*value), path@));
            }
        },
    }
}

/// The members as plain values, one for one.
proof fn lemma_members_view(entries: Seq<(String, Json)>, upto: int)
    requires
        0 <= upto <= entries.len(),
    ensures
        members_view(entries, upto).len() == upto,
        forall|i: int|
            0 <= i < upto ==> #[trigger] members_view(entries, upto)[i] == (
                entries[i].0@,
                json_view(entries[i].1),
            ),
    decreases upto,
{
    if upto > 0 {
        lemma_members_view(entries, upto - 1);
    }
}

/// The items as plain values, one for one.
proof fn lemma_items_view(items: Seq<Json>, upto: int)
    requires
        0 <= upto <= items.len(),
    ensures
        items_view(items, upto).len() == upto,
        forall|i: int| 0 <= i < upto ==> #[trigger] items_view(items, upto)[i] == json_view(items[i]),
    decreases upto,
{
    if upto > 0 {
        lemma_items_view(items, upto - 1);
    }
}

/// What `gron` answers when `document` is what was read from its
/// argument: the lines of the document at the path `json`, under a truthy
/// status; the falsy empty value where nothing was read; an internal
/// error for any other number of arguments than one.
pub open spec fn gron_spec(args: Seq<OutputView>, document: Option<JsonView>) -> Result<
    OutputView,
    ExecutionErrorView,
> {
    if args.len() != 1 {
        Err(ExecutionErrorView::InternalError)
    } else {
        match document {
            Some(json) => Ok(OutputView { text: flat(json, "json"@), status: 0 }),
            None => Ok(verdict(false)),
        }
    }
}

/// The answer of `gron` to one argument from which `document` was read.
pub fn gron_of(document: Option<&Json>) -> (res: Output)
    ensures
        res@ == (match document {
            Some(json) => OutputView { text: flat(json_view(*json), "json"@), status: 0 },
            None => verdict(false),
        }),
{
    match document {
        Some(json) => {
            let mut text = String::new();
            flatten(json, "json", &mut text);
            assert(text@ =~= flat(json_view(*json), "json"@));
            Output::new_truthy_with(text)
        },
        None => Output::new_falsy(),
    }
}

/// `gron input`, once `document` was read from the input: the lines of
/// the document, or the falsy empty value where the input holds none.
pub fn gron_with<B>(_library: &FunctionLibrary<B>, args: &[Output], document: Option<&Json>) -> (res:
    Result<Output, ExecutionError>)
    ensures
        result_view(res) == gron_spec(
            outputs_view(args@),
            match document {
                Some(json) => Some(json_view(*json)),
                None => None,
            },
        ),
{
    if args.len() != 1 {
        return Err(ExecutionError::InternalError);
    }
    Ok(gron_of(document))
}

} // verus!
