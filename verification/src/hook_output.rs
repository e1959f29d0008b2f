//! The JSON replies of the hooks.
use vstd::prelude::*;

use crate::json;
use crate::json::{Json, JsonTree};
use crate::text;

verus! {

pub open spec fn empty_object() -> Map<Seq<char>, JsonTree> {
    Map::empty()
}

/// An object with one text member.
pub open spec fn field_tree(field: Seq<char>, value: Seq<char>) -> JsonTree {
    JsonTree::Object(empty_object().insert(field, JsonTree::Text(value)))
}

/// The decision in the form that names the hook's event.
pub open spec fn decision(verdict: Seq<char>) -> Map<Seq<char>, JsonTree> {
    empty_object().insert("hookEventName"@, JsonTree::Text("PreToolUse"@)).insert(
        "permissionDecision"@,
        JsonTree::Text(verdict),
    )
}

/// The reply that denies a tool call.
pub open spec fn deny_tree(reason: Seq<char>) -> JsonTree {
    JsonTree::Object(
        empty_object().insert("permission"@, JsonTree::Text("deny"@)).insert(
            "reason"@,
            JsonTree::Text(reason),
        ).insert("hookSpecificOutput"@, JsonTree::Object(decision("deny"@))),
    )
}

/// The reply that allows a tool call as it is.
pub open spec fn allow_tree() -> JsonTree {
    JsonTree::Object(
        empty_object().insert("permission"@, JsonTree::Text("allow"@)).insert(
            "hookSpecificOutput"@,
            JsonTree::Object(decision("allow"@)),
        ),
    )
}

/// The tool's input with one field set; the field alone where the input is no
/// object.
pub open spec fn updated_input(
    tool_input: Option<JsonTree>,
    field: Seq<char>,
    value: Seq<char>,
) -> JsonTree {
    match tool_input {
        Some(JsonTree::Object(m)) => JsonTree::Object(m.insert(field, JsonTree::Text(value))),
        _ => field_tree(field, value),
    }
}

/// The reply that allows a tool call with one field of its input changed.
pub open spec fn update_tree(
    tool_input: Option<JsonTree>,
    field: Seq<char>,
    value: Seq<char>,
) -> JsonTree {
    JsonTree::Object(
        empty_object().insert("permission"@, JsonTree::Text("allow"@)).insert(
            "updated_input"@,
            updated_input(tool_input, field, value),
        ).insert(
            "hookSpecificOutput"@,
            JsonTree::Object(
                decision("allow"@).insert("updatedInput"@, field_tree(field, value)),
            ),
        ),
    )
}

fn decision_entries(verdict: &str) -> (r: Vec<(String, Json)>)
    ensures
        json::members(r@) == decision(verdict@),
{
    let mut e: Vec<(String, Json)> = Vec::new();
    json::push_member(&mut e, "hookEventName", json::text_value("PreToolUse"));
    json::push_member(&mut e, "permissionDecision", json::text_value(verdict));
    e
}

/// The reply that denies a tool call.
pub fn build_dual_deny_output(reason: &str) -> (r: String)
    ensures
        r@ == json::json_text(deny_tree(reason@)),
{
    let mut e: Vec<(String, Json)> = Vec::new();
    json::push_member(&mut e, "permission", json::text_value("deny"));
    json::push_member(&mut e, "reason", json::text_value(reason));
    json::push_member(&mut e, "hookSpecificOutput", Json::Object(decision_entries("deny")));
    Json::Object(e).render()
}

/// The reply that allows a tool call as it is.
pub fn build_dual_allow_output() -> (r: String)
    ensures
        r@ == json::json_text(allow_tree()),
{
    let mut e: Vec<(String, Json)> = Vec::new();
    json::push_member(&mut e, "permission", json::text_value("allow"));
    json::push_member(&mut e, "hookSpecificOutput", Json::Object(decision_entries("allow")));
    Json::Object(e).render()
}

/// The reply that allows a tool call with one field of its input changed.
pub fn build_redirect_output(tool_input: Option<Json>, field: &str, temp_path: &str) -> (r: String)
    ensures
        r@ == json::json_text(update_tree(opt_json(tool_input), field@, temp_path@)),
{
    let updated = match tool_input {
        Some(Json::Object(entries)) => {
            let mut m = entries;
            json::push_member(&mut m, field, json::text_value(temp_path));
            Json::Object(m)
        },
        _ => json::object1(field, json::text_value(temp_path)),
    };
    let mut e: Vec<(String, Json)> = Vec::new();
    json::push_member(&mut e, "permission", json::text_value("allow"));
    json::push_member(&mut e, "updated_input", updated);
    let mut d = decision_entries("allow");
    json::push_member(&mut d, "updatedInput", json::object1(field, json::text_value(temp_path)));
    json::push_member(&mut e, "hookSpecificOutput", Json::Object(d));
    Json::Object(e).render()
}

/// What a value that may be missing means.
pub open spec fn opt_json(j: Option<Json>) -> Option<JsonTree> {
    match j {
        Some(v) => Some(v.tree()),
        None => None,
    }
}

/// The reply that allows a shell call with its command rewritten.
pub fn build_dual_rewrite_output(tool_input: Option<Json>, rewritten: &str) -> (r: String)
    ensures
        r@ == json::json_text(update_tree(opt_json(tool_input), "command"@, rewritten@)),
{
    build_redirect_output(tool_input, "command", rewritten)
}

pub open spec fn emitted(rewritten: Seq<char>) -> Seq<char> {
    "{\"hookSpecificOutput\":{\"hookEventName\":\"PreToolUse\",\"permissionDecision\":\"allow\",\"updatedInput\":{\"command\":\""@
        + text::replace(text::replace(rewritten, "\\"@, "\\\\"@), "\""@, "\\\""@) + "\"}}}"@
}

/// The reply with the rewritten command alone; backslashes and quotes are
/// escaped.
pub fn emit_rewrite(rewritten: &str) -> (r: String)
    ensures
        r@ == emitted(rewritten@),
{
    let chars = text::chars_of(rewritten);
    let slashes = text::replaced(chars.as_slice(), "\\", "\\\\");
    let quotes = text::replaced(slashes.as_slice(), "\"", "\\\"");
    let escaped = text::text_of(quotes.as_slice());
    let mut out = String::new();
    out.push_str(
        "{\"hookSpecificOutput\":{\"hookEventName\":\"PreToolUse\",\"permissionDecision\":\"allow\",\"updatedInput\":{\"command\":\"",
    );
    out.push_str(escaped.as_str());
    out.push_str("\"}}}");
    out
}

pub open spec fn reroute_message(rewritten: Seq<char>) -> Seq<char> {
    "Command should run via lean-ctx for compact output. Do not retry the original command. Re-run with: "@
        + rewritten
}

/// The message that asks to run the rewritten command instead.
pub fn codex_reroute_message(rewritten: &str) -> (r: String)
    ensures
        r@ == reroute_message(rewritten@),
{
    let mut out = String::new();
    out.push_str(
        "Command should run via lean-ctx for compact output. Do not retry the original command. Re-run with: ",
    );
    out.push_str(rewritten);
    out
}

/// The replies: each names the decision twice, once by itself and once in the form that
/// names the hook's event; a denial gives its reason.
pub proof fn law_replies(reason: Seq<char>)
    ensures
        ({
            let none = Map::<Seq<char>, JsonTree>::empty();
            let event = none.insert("hookEventName"@, JsonTree::Text("PreToolUse"@));
            &&& deny_tree(reason) == JsonTree::Object(
                none.insert("permission"@, JsonTree::Text("deny"@)).insert(
                    "reason"@,
                    JsonTree::Text(reason),
                ).insert(
                    "hookSpecificOutput"@,
                    JsonTree::Object(
                        event.insert("permissionDecision"@, JsonTree::Text("deny"@)),
                    ),
                ),
            )
            &&& allow_tree() == JsonTree::Object(
                none.insert("permission"@, JsonTree::Text("allow"@)).insert(
                    "hookSpecificOutput"@,
                    JsonTree::Object(
                        event.insert("permissionDecision"@, JsonTree::Text("allow"@)),
                    ),
                ),
            )
        }),
{
}

/// A changed call is allowed with the tool's input, in which the one field has the new
/// value and every other member stays; where the input is no object, it is the field
/// alone. The form that names the event has the field alone.
pub proof fn law_updated_call(
    input: Option<JsonTree>,
    members: Map<Seq<char>, JsonTree>,
    field: Seq<char>,
    value: Seq<char>,
    key: Seq<char>,
)
    ensures
        json::text_of_tree(json::member(update_tree(input, field, value), "permission"@)) == Some(
            "allow"@,
        ),
        ({
            let changed = json::member(
                update_tree(Some(JsonTree::Object(members)), field, value),
                "updated_input"@,
            );
            &&& json::member_of(changed, field) == Some(JsonTree::Text(value))
            &&& key != field ==> json::member_of(changed, key) == json::member(
                JsonTree::Object(members),
                key,
            )
        }),
        input is None || !(input->0 is Object) ==> json::member(
            update_tree(input, field, value),
            "updated_input"@,
        ) == Some(
            JsonTree::Object(
                Map::<Seq<char>, JsonTree>::empty().insert(field, JsonTree::Text(value)),
            ),
        ),
        ({
            let event = json::member(update_tree(input, field, value), "hookSpecificOutput"@);
            &&& json::text_of_tree(json::member_of(event, "permissionDecision"@)) == Some("allow"@)
            &&& json::text_of_tree(json::member_of(event, "hookEventName"@)) == Some("PreToolUse"@)
            &&& json::member_of(event, "updatedInput"@) == Some(
                JsonTree::Object(
                    Map::<Seq<char>, JsonTree>::empty().insert(field, JsonTree::Text(value)),
                ),
            )
        }),
{
    reveal_strlit("permission");
    reveal_strlit("updated_input");
    reveal_strlit("hookSpecificOutput");
    reveal_strlit("hookEventName");
    reveal_strlit("permissionDecision");
    reveal_strlit("updatedInput");
    assert("permission"@.len() == 10 && "updated_input"@.len() == 13);
    assert("hookSpecificOutput"@.len() == 18 && "hookSpecificOutput"@[0] == 'h');
    assert("hookEventName"@.len() == 13 && "permissionDecision"@.len() == 18);
    assert("updatedInput"@.len() == 12);
}

} // verus!
