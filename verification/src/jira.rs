//! Jira provider: issues and sprints through the Jira REST API.
//!
//! A call is made in two steps: [`JiraProvider::execute`] says what to request,
//! and [`JiraProvider::complete`] reads the reply.
use vstd::prelude::*;
use vstd::utf8::encode_utf8;

use crate::base64;
use crate::json;
use crate::json::{Json, JsonTree};
use crate::providers::{ItemModel, ProviderItem, ProviderParams, ProviderResult, ResultModel};
use crate::text;

verus! {

// ---------------------------------------------------------------- percent encoding
/// Whether a byte stands for itself in a URL.
pub open spec fn is_unreserved(b: u8) -> bool {
    ||| 48 <= b <= 57
    ||| 65 <= b <= 90
    ||| 97 <= b <= 122
    ||| b == 45
    ||| b == 46
    ||| b == 95
    ||| b == 126
}

pub open spec fn upper_hex(d: int) -> char {
    if d < 10 {
        ('0' as int + d) as char
    } else {
        ('A' as int + d - 10) as char
    }
}

/// The bytes with every one that is not unreserved as `%` and two digits.
pub open spec fn percent_encoded(bytes: Seq<u8>) -> Seq<char>
    decreases bytes.len(),
{
    if bytes.len() == 0 {
        seq![]
    } else {
        let b = bytes.last();
        percent_encoded(bytes.drop_last()) + (if is_unreserved(b) {
            seq![b as char]
        } else {
            seq!['%', upper_hex(b as int / 16), upper_hex(b as int % 16)]
        })
    }
}

/// `urlencoding::encode`: each byte of the text's UTF-8 form stands for itself
/// where it is a letter, a digit, `-`, `.`, `_` or `~`, and is written as `%`
/// with two upper-case hexadecimal digits where it is not.
#[verifier::external_body]
fn url_encode(data: &str) -> (r: String)
    ensures
        r@ == percent_encoded(encode_utf8(data@)),
{
    urlencoding::encode(data).into_owned()
}

// ---------------------------------------------------------------- configuration
/// Where Jira is and how to log in.
pub struct JiraConfig {
    pub base_url: String,
    pub email: String,
    pub token: String,
    pub project: Option<String>,
}

/// The meaning of a [`JiraConfig`].
pub struct JiraSettings {
    pub base_url: Seq<char>,
    pub email: Seq<char>,
    pub token: Seq<char>,
    pub project: Option<Seq<char>>,
}

impl View for JiraConfig {
    type V = JiraSettings;

    open spec fn view(&self) -> JiraSettings {
        JiraSettings {
            base_url: self.base_url@,
            email: self.email@,
            token: self.token@,
            project: text::opt_owned(self.project),
        }
    }
}

pub open spec fn equal_to(c: char) -> spec_fn(char) -> bool {
    |x: char| x == c
}

/// `s` without the slashes at its end.
pub open spec fn without_slashes(s: Seq<char>) -> Seq<char> {
    s.take(s.len() - text::tail_len(s, equal_to('/')))
}

/// The settings that the environment gives, or what it lacks.
pub open spec fn env_settings(
    url: Option<Seq<char>>,
    email: Option<Seq<char>>,
    token: Option<Seq<char>>,
    project: Option<Seq<char>>,
) -> Result<JiraSettings, Seq<char>> {
    match (url, email, token) {
        (None, _, _) => Err("JIRA_URL not set"@),
        (_, None, _) => Err("JIRA_EMAIL not set"@),
        (_, _, None) => Err("JIRA_TOKEN not set"@),
        (Some(u), Some(e), Some(t)) => Ok(
            JiraSettings { base_url: without_slashes(u), email: e, token: t, project },
        ),
    }
}

pub open spec fn config_view(c: Result<JiraConfig, String>) -> Result<JiraSettings, Seq<char>> {
    match c {
        Ok(v) => Ok(v@),
        Err(m) => Err(m@),
    }
}

/// The value of the `Authorization` header: basic authentication with the
/// e-mail address and the token.
pub open spec fn authorization(c: JiraSettings) -> Seq<char> {
    "Basic "@ + base64::base64(encode_utf8(c.email + ":"@ + c.token))
}

fn slashes_removed(s: &str) -> (r: String)
    ensures
        r@ == without_slashes(s@),
{
    let chars = text::chars_of(s);
    let mut k: usize = chars.len();
    while k > 0 && chars[k - 1] == '/'
        invariant
            k <= chars.len(),
            forall|j: int| k <= j < chars@.len() ==> #[trigger] chars@[j] == '/',
        decreases k,
    {
        k -= 1;
    }
    proof {
        text::lemma_tail_len_is(chars@, equal_to('/'), chars@.len() - k);
    }
    text::text_of(vstd::slice::slice_subrange(chars.as_slice(), 0, k))
}

impl JiraConfig {
    /// The configuration that the variables `JIRA_URL`, `JIRA_EMAIL`,
    /// `JIRA_TOKEN` and `JIRA_PROJECT` give.
    pub fn from_env(
        url: Option<String>,
        email: Option<String>,
        token: Option<String>,
        project: Option<String>,
    ) -> (r: Result<JiraConfig, String>)
        ensures
            config_view(r) == env_settings(
                text::opt_owned(url),
                text::opt_owned(email),
                text::opt_owned(token),
                text::opt_owned(project),
            ),
    {
        let base_url = match url {
            Some(u) => slashes_removed(u.as_str()),
            None => {
                return Err("JIRA_URL not set".to_string());
            },
        };
        let email_text = match email {
            Some(e) => e,
            None => {
                return Err("JIRA_EMAIL not set".to_string());
            },
        };
        let token_text = match token {
            Some(t) => t,
            None => {
                return Err("JIRA_TOKEN not set".to_string());
            },
        };
        Ok(JiraConfig { base_url, email: email_text, token: token_text, project })
    }

    /// The value of the `Authorization` header.
    pub fn auth_header(&self) -> (r: String)
        ensures
            r@ == authorization(self@),
    {
        let mut credentials = String::new();
        credentials.push_str(self.email.as_str());
        credentials.push_str(":");
        credentials.push_str(self.token.as_str());
        let encoded = base64::simple_base64(credentials.as_str().as_bytes());
        let mut out = String::new();
        out.push_str("Basic ");
        out.push_str(encoded.as_str());
        out
    }
}

// ---------------------------------------------------------------- requests
/// A GET request to make, with this `Authorization` header, that accepts JSON.
pub struct JiraRequest {
    pub url: String,
    pub authorization: String,
}

/// The reply to a request.
pub enum JiraReply {
    /// The call failed with this message.
    CallFailed(String),
    /// The body could not be read, with this message.
    ReadFailed(String),
    /// The body of the reply.
    Body(String),
}

/// The meaning of a [`JiraRequest`].
pub struct RequestModel {
    pub url: Seq<char>,
    pub authorization: Seq<char>,
}

impl View for JiraRequest {
    type V = RequestModel;

    open spec fn view(&self) -> RequestModel {
        RequestModel { url: self.url@, authorization: self.authorization@ }
    }
}

pub open spec fn limit_of(p: ProviderParams, default_limit: usize) -> usize {
    match p.limit {
        Some(n) => n,
        None => default_limit,
    }
}

/// The project that is listed: that of the call, else the configured one, else
/// any.
pub open spec fn project_of(c: JiraSettings, p: ProviderParams) -> Seq<char> {
    match p.state {
        Some(s) => s@,
        None => match c.project {
            Some(s) => s,
            None => "*"@,
        },
    }
}

/// The query for the issues of a project, the latest first.
pub open spec fn issue_query(project: Seq<char>) -> Seq<char> {
    if project == "*"@ {
        "ORDER BY updated DESC"@
    } else {
        "project="@ + project + " ORDER BY updated DESC"@
    }
}

pub open spec fn issues_url(c: JiraSettings, p: ProviderParams) -> Seq<char> {
    c.base_url + "/rest/api/3/search?jql="@ + percent_encoded(
        encode_utf8(issue_query(project_of(c, p))),
    ) + "&maxResults="@ + text::decimal(limit_of(p, 20) as nat)
}

pub open spec fn sprints_url(c: JiraSettings, board: Seq<char>, p: ProviderParams) -> Seq<char> {
    c.base_url + "/rest/agile/1.0/board/"@ + board + "/sprint?state=active,future&maxResults="@
        + text::decimal(limit_of(p, 5) as nat)
}

/// What is requested for an action, or why nothing is.
pub open spec fn request_of(
    c: JiraSettings,
    action: Seq<char>,
    p: ProviderParams,
) -> Result<RequestModel, Seq<char>> {
    if action == "issues"@ {
        Ok(RequestModel { url: issues_url(c, p), authorization: authorization(c) })
    } else if action == "sprints"@ {
        match p.state {
            Some(board) => Ok(
                RequestModel {
                    url: sprints_url(c, board@, p),
                    authorization: authorization(c),
                },
            ),
            None => Err("Sprint listing requires a board ID via the 'state' parameter"@),
        }
    } else {
        Err("Unsupported action: "@ + action)
    }
}

pub open spec fn request_view(r: Result<JiraRequest, String>) -> Result<RequestModel, Seq<char>> {
    match r {
        Ok(v) => Ok(v@),
        Err(m) => Err(m@),
    }
}

fn limit_or(p: &ProviderParams, default_limit: usize) -> (r: usize)
    ensures
        r == limit_of(*p, default_limit),
{
    match p.limit {
        Some(n) => n,
        None => default_limit,
    }
}

fn issues_request(config: &JiraConfig, params: &ProviderParams) -> (r: JiraRequest)
    ensures
        r@ == (RequestModel {
            url: issues_url(config@, *params),
            authorization: authorization(config@),
        }),
{
    let project = match &params.state {
        Some(s) => s.clone(),
        None => match &config.project {
            Some(s) => s.clone(),
            None => "*".to_string(),
        },
    };
    let mut jql = String::new();
    if text::same_text(project.as_str(), "*") {
        jql.push_str("ORDER BY updated DESC");
    } else {
        jql.push_str("project=");
        jql.push_str(project.as_str());
        jql.push_str(" ORDER BY updated DESC");
    }
    proof {
        assert(jql@ =~= issue_query(project@));
    }
    let mut url = config.base_url.clone();
    url.push_str("/rest/api/3/search?jql=");
    let encoded = url_encode(jql.as_str());
    url.push_str(encoded.as_str());
    url.push_str("&maxResults=");
    let limit = limit_or(params, 20);
    text::push_number(&mut url, limit);
    JiraRequest { url, authorization: config.auth_header() }
}

fn sprints_request(config: &JiraConfig, params: &ProviderParams) -> (r: Result<JiraRequest, String>)
    ensures
        request_view(r) == request_of(config@, "sprints"@, *params),
{
    proof {
        reveal_strlit("issues");
        reveal_strlit("sprints");
        assert("issues"@.len() != "sprints"@.len());
    }
    match &params.state {
        Some(board) => {
            let mut url = config.base_url.clone();
            url.push_str("/rest/agile/1.0/board/");
            url.push_str(board.as_str());
            url.push_str("/sprint?state=active,future&maxResults=");
            let limit = limit_or(params, 5);
            text::push_number(&mut url, limit);
            Ok(JiraRequest { url, authorization: config.auth_header() })
        },
        None => Err("Sprint listing requires a board ID via the 'state' parameter".to_string()),
    }
}

// ---------------------------------------------------------------- replies
pub open spec fn text_or_empty(t: Option<JsonTree>) -> Seq<char> {
    match json::text_of_tree(t) {
        Some(s) => s,
        None => Seq::<char>::empty(),
    }
}

/// The texts among the values.
pub open spec fn texts_among(a: Seq<JsonTree>) -> Seq<Seq<char>>
    decreases a.len(),
{
    if a.len() == 0 {
        seq![]
    } else {
        let before = texts_among(a.drop_last());
        match a.last() {
            JsonTree::Text(s) => before.push(s),
            _ => before,
        }
    }
}

/// The description of an issue: its text, or a note where it is rich text.
pub open spec fn description_of(d: Option<JsonTree>) -> Option<Seq<char>> {
    match json::text_of_tree(d) {
        Some(s) => Some(s),
        None => if json::items_of_tree(json::member_of(d, "content"@)) is Some {
            Some("[Jira rich text — see web UI]"@)
        } else {
            None
        },
    }
}

/// The item that an issue of the reply becomes.
pub open spec fn issue_item(issue: JsonTree, base_url: Seq<char>) -> ItemModel {
    let fields = json::member(issue, "fields"@);
    let key = text_or_empty(json::member(issue, "key"@));
    ItemModel {
        id: key,
        title: text_or_empty(json::member_of(fields, "summary"@)),
        state: json::text_of_tree(json::member_of(json::member_of(fields, "status"@), "name"@)),
        author: json::text_of_tree(
            json::member_of(json::member_of(fields, "reporter"@), "displayName"@),
        ),
        created_at: json::text_of_tree(json::member_of(fields, "created"@)),
        updated_at: json::text_of_tree(json::member_of(fields, "updated"@)),
        url: Some(base_url + "/browse/"@ + key),
        labels: match json::items_of_tree(json::member_of(fields, "labels"@)) {
            Some(a) => texts_among(a),
            None => seq![],
        },
        body: description_of(json::member_of(fields, "description"@)),
    }
}

pub open spec fn items_or_none(t: Option<JsonTree>) -> Seq<JsonTree> {
    match json::items_of_tree(t) {
        Some(a) => a,
        None => seq![],
    }
}

pub open spec fn total_of(body: JsonTree) -> usize {
    match json::unsigned_of_tree(json::member(body, "total"@)) {
        Some(n) => n as usize,
        None => 0,
    }
}

/// The answer for the issues of a reply; it is cut off where the total exceeds
/// the limit.
pub open spec fn issues_answer(
    body: JsonTree,
    base_url: Seq<char>,
    limit: usize,
) -> ResultModel {
    let issues = items_or_none(json::member(body, "issues"@));
    ResultModel {
        provider: "jira"@,
        resource_type: "issues"@,
        items: Seq::new(issues.len(), |i: int| issue_item(issues[i], base_url)),
        total_count: Some(total_of(body)),
        truncated: total_of(body) > limit,
    }
}

/// The item that a sprint of the reply becomes.
pub open spec fn sprint_item(s: JsonTree) -> ItemModel {
    ItemModel {
        id: match json::unsigned_of_tree(json::member(s, "id"@)) {
            Some(n) => text::decimal(n as nat),
            None => Seq::<char>::empty(),
        },
        title: text_or_empty(json::member(s, "name"@)),
        state: json::text_of_tree(json::member(s, "state"@)),
        author: None,
        created_at: json::text_of_tree(json::member(s, "startDate"@)),
        updated_at: json::text_of_tree(json::member(s, "endDate"@)),
        url: None,
        labels: seq![],
        body: json::text_of_tree(json::member(s, "goal"@)),
    }
}

/// The answer for the sprints of a reply.
pub open spec fn sprints_answer(body: JsonTree) -> ResultModel {
    let sprints = items_or_none(json::member(body, "values"@));
    ResultModel {
        provider: "jira"@,
        resource_type: "sprints"@,
        items: Seq::new(sprints.len(), |i: int| sprint_item(sprints[i])),
        total_count: Some(sprints.len() as usize),
        truncated: false,
    }
}

fn owned(t: Option<&str>) -> (r: Option<String>)
    ensures
        text::opt_owned(r) == text::opt_view(t),
{
    match t {
        Some(s) => Some(s.to_string()),
        None => None,
    }
}

fn owned_or_empty(j: Option<&Json>) -> (r: String)
    ensures
        r@ == text_or_empty(json::opt_tree(j)),
{
    match json::as_text(j) {
        Some(s) => s.to_string(),
        None => String::new(),
    }
}

fn label_texts(a: &Vec<Json>) -> (r: Vec<String>)
    ensures
        text::views(r@) == texts_among(json::trees(a@)),
{
    let mut out: Vec<String> = Vec::new();
    let mut i: usize = 0;
    let ghost all = json::trees(a@);
    proof {
        assert(text::views(out@) =~= texts_among(all.take(0)));
    }
    while i < a.len()
        invariant
            i <= a.len(),
            all == json::trees(a@),
            text::views(out@) == texts_among(all.take(i as int)),
        decreases a.len() - i,
    {
        proof {
            assert(all.take(i + 1).drop_last() =~= all.take(i as int));
            assert(all.take(i + 1).last() == a@[i as int].tree());
        }
        match json::as_text(Some(&a[i])) {
            Some(s) => {
                let t = s.to_string();
                proof {
                    text::lemma_views_push(out@, t);
                }
                out.push(t);
            },
            None => {},
        }
        i += 1;
    }
    proof {
        assert(all.take(i as int) =~= all);
    }
    out
}

fn read_issue(issue: &Json, base_url: &str) -> (r: ProviderItem)
    ensures
        r@ == issue_item(issue.tree(), base_url@),
{
    let fields = json::get(Some(issue), "fields");
    let key = owned_or_empty(json::get(Some(issue), "key"));
    let mut url = String::new();
    url.push_str(base_url);
    url.push_str("/browse/");
    url.push_str(key.as_str());
    let labels = match json::as_items(json::get(fields, "labels")) {
        Some(a) => label_texts(a),
        None => Vec::new(),
    };
    proof {
        if json::items_of_tree(json::member_of(json::opt_tree(fields), "labels"@)) is None {
            assert(text::views(labels@) =~= Seq::<Seq<char>>::empty());
        }
    }
    let description = json::get(fields, "description");
    let body = match json::as_text(description) {
        Some(s) => Some(s.to_string()),
        None => if json::as_items(json::get(description, "content")).is_some() {
            Some("[Jira rich text — see web UI]".to_string())
        } else {
            None
        },
    };
    ProviderItem {
        id: key,
        title: owned_or_empty(json::get(fields, "summary")),
        state: owned(json::as_text(json::get(json::get(fields, "status"), "name"))),
        author: owned(json::as_text(json::get(json::get(fields, "reporter"), "displayName"))),
        created_at: owned(json::as_text(json::get(fields, "created"))),
        updated_at: owned(json::as_text(json::get(fields, "updated"))),
        url: Some(url),
        labels,
        body,
    }
}

fn read_sprint(s: &Json) -> (r: ProviderItem)
    ensures
        r@ == sprint_item(s.tree()),
{
    let id = match json::as_unsigned(json::get(Some(s), "id")) {
        Some(n) => text::text_of(text::decimal_chars(n).as_slice()),
        None => String::new(),
    };
    let labels: Vec<String> = Vec::new();
    proof {
        assert(text::views(labels@) =~= Seq::<Seq<char>>::empty());
    }
    ProviderItem {
        id,
        title: owned_or_empty(json::get(Some(s), "name")),
        state: owned(json::as_text(json::get(Some(s), "state"))),
        author: None,
        created_at: owned(json::as_text(json::get(Some(s), "startDate"))),
        updated_at: owned(json::as_text(json::get(Some(s), "endDate"))),
        url: None,
        labels,
        body: owned(json::as_text(json::get(Some(s), "goal"))),
    }
}

/// The answer for the issues of a reply.
pub fn read_issues(body: &Json, base_url: &str, limit: usize) -> (r: ProviderResult)
    ensures
        r@ == issues_answer(body.tree(), base_url@, limit),
{
    let total: usize = match json::as_unsigned(json::get(Some(body), "total")) {
        Some(n) => n as usize,
        None => 0,
    };
    let mut items: Vec<ProviderItem> = Vec::new();
    let ghost issues = items_or_none(json::member(body.tree(), "issues"@));
    let ghost expected = Seq::new(issues.len(), |i: int| issue_item(issues[i], base_url@));
    match json::as_items(json::get(Some(body), "issues")) {
        Some(a) => {
            let mut i: usize = 0;
            while i < a.len()
                invariant
                    i <= a.len(),
                    issues == json::trees(a@),
                    expected == Seq::new(issues.len(), |i: int| issue_item(issues[i], base_url@)),
                    text::views(items@) == expected.take(i as int),
                decreases a.len() - i,
            {
                let item = read_issue(&a[i], base_url);
                proof {
                    text::lemma_views_push(items@, item);
                    assert(expected.take(i + 1) =~= expected.take(i as int).push(item@));
                }
                items.push(item);
                i += 1;
            }
            proof {
                assert(expected.take(i as int) =~= expected);
            }
        },
        None => {
            proof {
                assert(text::views(items@) =~= expected);
            }
        },
    }
    ProviderResult {
        provider: "jira".to_string(),
        resource_type: "issues".to_string(),
        items,
        total_count: Some(total),
        truncated: total > limit,
    }
}

/// The answer for the sprints of a reply.
pub fn read_sprints(body: &Json) -> (r: ProviderResult)
    ensures
        r@ == sprints_answer(body.tree()),
{
    let mut items: Vec<ProviderItem> = Vec::new();
    let ghost sprints = items_or_none(json::member(body.tree(), "values"@));
    let ghost expected = Seq::new(sprints.len(), |i: int| sprint_item(sprints[i]));
    match json::as_items(json::get(Some(body), "values")) {
        Some(a) => {
            let mut i: usize = 0;
            while i < a.len()
                invariant
                    i <= a.len(),
                    sprints == json::trees(a@),
                    expected == Seq::new(sprints.len(), |i: int| sprint_item(sprints[i])),
                    text::views(items@) == expected.take(i as int),
                decreases a.len() - i,
            {
                let item = read_sprint(&a[i]);
                proof {
                    text::lemma_views_push(items@, item);
                    assert(expected.take(i + 1) =~= expected.take(i as int).push(item@));
                }
                items.push(item);
                i += 1;
            }
            proof {
                assert(expected.take(i as int) =~= expected);
            }
        },
        None => {
            proof {
                assert(text::views(items@) =~= expected);
            }
        },
    }
    let count = items.len();
    proof {
        assert(text::views(items@).len() == count);
    }
    ProviderResult {
        provider: "jira".to_string(),
        resource_type: "sprints".to_string(),
        items,
        total_count: Some(count),
        truncated: false,
    }
}

/// The meaning of a [`JiraReply`].
pub enum ReplyModel {
    CallFailed(Seq<char>),
    ReadFailed(Seq<char>),
    Body(Seq<char>),
}

impl View for JiraReply {
    type V = ReplyModel;

    open spec fn view(&self) -> ReplyModel {
        match *self {
            JiraReply::CallFailed(m) => ReplyModel::CallFailed(m@),
            JiraReply::ReadFailed(m) => ReplyModel::ReadFailed(m@),
            JiraReply::Body(s) => ReplyModel::Body(s@),
        }
    }
}

/// The JSON body of a reply, or the message of what went wrong.
pub open spec fn reply_tree(reply: ReplyModel, call_error: Seq<char>) -> Result<
    JsonTree,
    Seq<char>,
> {
    match reply {
        ReplyModel::CallFailed(m) => Err(call_error + m),
        ReplyModel::ReadFailed(m) => Err("Jira read error: "@ + m),
        ReplyModel::Body(s) => match json::json_parse(s) {
            Ok(t) => Ok(t),
            Err(m) => Err("Jira JSON parse error: "@ + m),
        },
    }
}

pub open spec fn result_view(r: Result<ProviderResult, String>) -> Result<ResultModel, Seq<char>> {
    match r {
        Ok(v) => Ok(v@),
        Err(m) => Err(m@),
    }
}

fn prefixed(prefix: &str, m: &str) -> (r: String)
    ensures
        r@ == prefix@ + m@,
{
    let mut out = String::new();
    out.push_str(prefix);
    out.push_str(m);
    out
}

fn reply_json(reply: JiraReply, call_error: &str) -> (r: Result<Json, String>)
    ensures
        match r {
            Ok(j) => reply_tree(reply@, call_error@) == Ok::<JsonTree, Seq<char>>(j.tree()),
            Err(m) => reply_tree(reply@, call_error@) == Err::<JsonTree, Seq<char>>(m@),
        },
{
    match reply {
        JiraReply::CallFailed(m) => Err(prefixed(call_error, m.as_str())),
        JiraReply::ReadFailed(m) => Err(prefixed("Jira read error: ", m.as_str())),
        JiraReply::Body(s) => match json::parse_json(s.as_str()) {
            Ok(j) => Ok(j),
            Err(m) => Err(prefixed("Jira JSON parse error: ", m.as_str())),
        },
    }
}

/// The answer that the reply to an issue request gives.
pub open spec fn issues_outcome(c: JiraSettings, p: ProviderParams, reply: ReplyModel) -> Result<
    ResultModel,
    Seq<char>,
> {
    match reply_tree(reply, "Jira API error: "@) {
        Ok(t) => Ok(issues_answer(t, c.base_url, limit_of(p, 20))),
        Err(m) => Err(m),
    }
}

/// The answer that the reply to a sprint request gives.
pub open spec fn sprints_outcome(reply: ReplyModel) -> Result<ResultModel, Seq<char>> {
    match reply_tree(reply, "Jira Agile API error: "@) {
        Ok(t) => Ok(sprints_answer(t)),
        Err(m) => Err(m),
    }
}

/// The answer to an action: what the reply to its request gives, or why there was
/// no request.
pub open spec fn answer_of(
    c: JiraSettings,
    action: Seq<char>,
    p: ProviderParams,
    reply: ReplyModel,
) -> Result<ResultModel, Seq<char>> {
    match request_of(c, action, p) {
        Ok(_) => if action == "issues"@ {
            issues_outcome(c, p, reply)
        } else {
            sprints_outcome(reply)
        },
        Err(m) => Err(m),
    }
}

/// A provider is configured just where the environment gives an address, an e-mail
/// address and a token.
pub proof fn law_configured(
    url: Option<Seq<char>>,
    email: Option<Seq<char>>,
    token: Option<Seq<char>>,
    project: Option<Seq<char>>,
)
    ensures
        env_settings(url, email, token, project) is Ok <==> url is Some && email is Some
            && token is Some,
{
}

/// The credentials can be read back from the header.
pub proof fn law_authorization(c: JiraSettings)
    ensures
        text::starts_with(authorization(c), "Basic "@),
        base64::base64_bytes(authorization(c).skip("Basic "@.len() as int)) == encode_utf8(
            c.email + ":"@ + c.token,
        ),
{
    let bytes = encode_utf8(c.email + ":"@ + c.token);
    base64::law_base64_round_trip(bytes);
    assert(authorization(c).take("Basic "@.len() as int) =~= "Basic "@);
    assert(authorization(c).skip("Basic "@.len() as int) =~= base64::base64(bytes));
}

/// The issues that a reply lists.
pub fn list_issues(config: &JiraConfig, params: &ProviderParams, reply: JiraReply) -> (r: Result<
    ProviderResult,
    String,
>)
    ensures
        result_view(r) == issues_outcome(config@, *params, reply@),
{
    match reply_json(reply, "Jira API error: ") {
        Ok(body) => {
            let limit = limit_or(params, 20);
            Ok(read_issues(&body, config.base_url.as_str(), limit))
        },
        Err(m) => Err(m),
    }
}

/// The sprints that a reply lists.
pub fn list_sprints(config: &JiraConfig, params: &ProviderParams, reply: JiraReply) -> (r: Result<
    ProviderResult,
    String,
>)
    ensures
        result_view(r) == answer_of(config@, "sprints"@, *params, reply@),
{
    proof {
        reveal_strlit("issues");
        reveal_strlit("sprints");
        assert("issues"@.len() != "sprints"@.len());
    }
    if params.state.is_none() {
        return Err("Sprint listing requires a board ID via the 'state' parameter".to_string());
    }
    match reply_json(reply, "Jira Agile API error: ") {
        Ok(body) => Ok(read_sprints(&body)),
        Err(m) => Err(m),
    }
}

// ---------------------------------------------------------------- the provider
/// The Jira provider.
pub struct JiraProvider {
    config: Result<JiraConfig, String>,
}

impl JiraProvider {
    /// The configuration, or why there is none.
    pub closed spec fn settings(&self) -> Result<JiraSettings, Seq<char>> {
        config_view(self.config)
    }

    /// The provider that the environment configures.
    pub fn new(
        url: Option<String>,
        email: Option<String>,
        token: Option<String>,
        project: Option<String>,
    ) -> (r: JiraProvider)
        ensures
            r.settings() == env_settings(
                text::opt_owned(url),
                text::opt_owned(email),
                text::opt_owned(token),
                text::opt_owned(project),
            ),
    {
        JiraProvider { config: JiraConfig::from_env(url, email, token, project) }
    }

    pub fn id(&self) -> (r: &'static str)
        ensures
            r@ == "jira"@,
    {
        "jira"
    }

    pub fn display_name(&self) -> (r: &'static str)
        ensures
            r@ == "Jira"@,
    {
        "Jira"
    }

    pub fn supported_actions(&self) -> (r: Vec<&'static str>)
        ensures
            text::views(r@) == seq!["issues"@, "sprints"@],
    {
        let mut out: Vec<&'static str> = Vec::new();
        out.push("issues");
        out.push("sprints");
        proof {
            assert(text::views(out@) =~= seq!["issues"@, "sprints"@]);
        }
        out
    }

    /// What to request for an action.
    pub fn execute(&self, action: &str, params: &ProviderParams) -> (r: Result<JiraRequest, String>)
        ensures
            request_view(r) == (match self.settings() {
                Ok(c) => request_of(c, action@, *params),
                Err(m) => Err(m),
            }),
    {
        match &self.config {
            Ok(config) => {
                if text::same_text(action, "issues") {
                    Ok(issues_request(config, params))
                } else if text::same_text(action, "sprints") {
                    sprints_request(config, params)
                } else {
                    Err(prefixed("Unsupported action: ", action))
                }
            },
            Err(m) => Err(m.clone()),
        }
    }

    /// The answer to an action: what the reply to its request gives, or why there
    /// was no request.
    pub fn complete(&self, action: &str, params: &ProviderParams, reply: JiraReply) -> (r: Result<
        ProviderResult,
        String,
    >)
        ensures
            result_view(r) == (match self.settings() {
                Ok(c) => answer_of(c, action@, *params, reply@),
                Err(m) => Err(m),
            }),
    {
        match &self.config {
            Ok(config) => {
                if text::same_text(action, "issues") {
                    list_issues(config, params, reply)
                } else if text::same_text(action, "sprints") {
                    list_sprints(config, params, reply)
                } else {
                    Err(prefixed("Unsupported action: ", action))
                }
            },
            Err(m) => Err(m.clone()),
        }
    }

    pub fn cache_ttl_secs(&self) -> (r: u64)
        ensures
            r == 120,
    {
        120
    }

    pub fn requires_auth(&self) -> (r: bool)
        ensures
            r,
    {
        true
    }

    /// Whether the provider is configured.
    pub fn is_available(&self) -> (r: bool)
        ensures
            r == (self.settings() is Ok),
    {
        self.config.is_ok()
    }
}

// ---------------------------------------------------------------- laws of requests
/// The settings are what the environment gives: the address without the slashes at its
/// end, and the rest as it stands. The first that is missing is named.
pub proof fn law_settings(
    url: Seq<char>,
    slashes: Seq<char>,
    email: Option<Seq<char>>,
    token: Option<Seq<char>>,
    project: Option<Seq<char>>,
)
    requires
        url.len() > 0 ==> url.last() != '/',
        forall|i: int| 0 <= i < slashes.len() ==> #[trigger] slashes[i] == '/',
    ensures
        env_settings(None, email, token, project) == Err::<JiraSettings, Seq<char>>(
            "JIRA_URL not set"@,
        ),
        email is None ==> env_settings(Some(url + slashes), email, token, project) == Err::<
            JiraSettings,
            Seq<char>,
        >("JIRA_EMAIL not set"@),
        email is Some && token is None ==> env_settings(Some(url + slashes), email, token, project)
            == Err::<JiraSettings, Seq<char>>("JIRA_TOKEN not set"@),
        email is Some && token is Some ==> env_settings(Some(url + slashes), email, token, project)
            == Ok::<JiraSettings, Seq<char>>(
            JiraSettings { base_url: url, email: email->0, token: token->0, project },
        ),
{
    let s = url + slashes;
    let n = slashes.len() as int;
    let f = equal_to('/');
    assert forall|i: int| s.len() - n <= i < s.len() implies f(#[trigger] s[i]) by {
        assert(s[i] == slashes[i - url.len()]);
    }
    if n < s.len() {
        assert(s[s.len() - n - 1] == url.last());
    }
    text::lemma_tail_len_is(s, f, n);
    assert(s.take(url.len() as int) =~= url);
}

/// In a URL a letter, a digit, `-`, `.`, `_` and `~` stand for themselves, and any other
/// byte is written as `%` and its two hexadecimal digits.
pub proof fn law_percent_encoding(bytes: Seq<u8>, b: u8)
    ensures
        percent_encoded(Seq::<u8>::empty()).len() == 0,
        ({
            let c = b as char;
            let digits = "0123456789ABCDEF"@;
            let plain = 'a' <= c <= 'z' || 'A' <= c <= 'Z' || '0' <= c <= '9' || c == '-' || c == '.'
                || c == '_' || c == '~';
            percent_encoded(bytes.push(b)) == percent_encoded(bytes) + (if plain {
                seq![c]
            } else {
                seq!['%', digits[b as int / 16], digits[b as int % 16]]
            })
        }),
{
    reveal_strlit("0123456789ABCDEF");
    assert(bytes.push(b).drop_last() =~= bytes);
}

/// The request for issues: those of the project that the call names, else of the
/// configured one, else of any, the latest first, at most as many as the call asks for or
/// twenty.
pub proof fn law_issues_request(c: JiraSettings, p: ProviderParams)
    ensures
        ({
            let order = "ORDER BY updated DESC"@;
            let query = match p.state {
                Some(s) => if s@ == "*"@ {
                    order
                } else {
                    "project="@ + s@ + " "@ + order
                },
                None => match c.project {
                    Some(s) => if s == "*"@ {
                        order
                    } else {
                        "project="@ + s + " "@ + order
                    },
                    None => order,
                },
            };
            let limit = match p.limit {
                Some(n) => n as nat,
                None => 20,
            };
            request_of(c, "issues"@, p) == Ok::<RequestModel, Seq<char>>(
                RequestModel {
                    url: c.base_url + "/rest/api/3/search?jql="@ + percent_encoded(
                        encode_utf8(query),
                    ) + "&maxResults="@ + text::decimal(limit),
                    authorization: "Basic "@ + base64::base64(
                        encode_utf8(c.email + ":"@ + c.token),
                    ),
                },
            )
        }),
{
    reveal_strlit("ORDER BY updated DESC");
    reveal_strlit(" ORDER BY updated DESC");
    reveal_strlit(" ");
    assert(" ORDER BY updated DESC"@ =~= " "@ + "ORDER BY updated DESC"@);
    let project = project_of(c, p);
    assert("project="@ + project + " ORDER BY updated DESC"@ =~= "project="@ + project + " "@
        + "ORDER BY updated DESC"@);
}

/// The request for sprints: the active and future ones of the board that the call names,
/// at most as many as it asks for or five; without a board there is none. Any other
/// action is refused by its name.
pub proof fn law_sprints_request(c: JiraSettings, p: ProviderParams, action: Seq<char>)
    ensures
        p.state is None ==> request_of(c, "sprints"@, p) == Err::<RequestModel, Seq<char>>(
            "Sprint listing requires a board ID via the 'state' parameter"@,
        ),
        p.state is Some ==> request_of(c, "sprints"@, p) == Ok::<RequestModel, Seq<char>>(
            RequestModel {
                url: c.base_url + "/rest/agile/1.0/board/"@ + p.state->0@
                    + "/sprint?state=active,future&maxResults="@ + text::decimal(
                    match p.limit {
                        Some(n) => n as nat,
                        None => 5,
                    },
                ),
                authorization: "Basic "@ + base64::base64(encode_utf8(c.email + ":"@ + c.token)),
            },
        ),
        action != "issues"@ && action != "sprints"@ ==> request_of(c, action, p) == Err::<
            RequestModel,
            Seq<char>,
        >("Unsupported action: "@ + action),
{
    reveal_strlit("issues");
    reveal_strlit("sprints");
    assert("issues"@.len() != "sprints"@.len());
}

// ---------------------------------------------------------------- laws of replies
/// A failed call and a reply that is no JSON are reported as such; any other reply is
/// read. An action without a request is answered with the reason, whatever the reply.
pub proof fn law_outcomes(
    c: JiraSettings,
    p: ProviderParams,
    m: Seq<char>,
    action: Seq<char>,
    reply: ReplyModel,
)
    ensures
        answer_of(c, "issues"@, p, ReplyModel::CallFailed(m)) == Err::<ResultModel, Seq<char>>(
            "Jira API error: "@ + m,
        ),
        p.state is Some ==> answer_of(c, "sprints"@, p, ReplyModel::CallFailed(m)) == Err::<
            ResultModel,
            Seq<char>,
        >("Jira Agile API error: "@ + m),
        action == "issues"@ || (action == "sprints"@ && p.state is Some) ==> answer_of(
            c,
            action,
            p,
            ReplyModel::ReadFailed(m),
        ) == Err::<ResultModel, Seq<char>>("Jira read error: "@ + m),
        (action == "issues"@ || (action == "sprints"@ && p.state is Some)) && json::json_parse(
            m,
        ) is Err ==> answer_of(c, action, p, ReplyModel::Body(m)) == Err::<ResultModel, Seq<char>>(
            "Jira JSON parse error: "@ + json::json_parse(m)->Err_0,
        ),
        json::json_parse(m) is Ok ==> answer_of(c, "issues"@, p, ReplyModel::Body(m)) == Ok::<
            ResultModel,
            Seq<char>,
        >(
            issues_answer(
                json::json_parse(m)->Ok_0,
                c.base_url,
                match p.limit {
                    Some(n) => n,
                    None => 20,
                },
            ),
        ),
        json::json_parse(m) is Ok && p.state is Some ==> answer_of(
            c,
            "sprints"@,
            p,
            ReplyModel::Body(m),
        ) == Ok::<ResultModel, Seq<char>>(sprints_answer(json::json_parse(m)->Ok_0)),
        action != "issues"@ && action != "sprints"@ ==> answer_of(c, action, p, reply) == Err::<
            ResultModel,
            Seq<char>,
        >("Unsupported action: "@ + action),
        p.state is None ==> answer_of(c, "sprints"@, p, reply) == Err::<ResultModel, Seq<char>>(
            "Sprint listing requires a board ID via the 'state' parameter"@,
        ),
{
    reveal_strlit("issues");
    reveal_strlit("sprints");
    assert("issues"@.len() != "sprints"@.len());
}

/// The answer for issues: one item for each issue of the reply, in its order, the total
/// that the reply names, and whether that is over the limit.
pub proof fn law_issues_answer(
    body: Map<Seq<char>, JsonTree>,
    issues: Seq<JsonTree>,
    total: u64,
    base_url: Seq<char>,
    limit: usize,
    i: int,
)
    requires
        body.contains_key("issues"@),
        body["issues"@] == JsonTree::Array(issues),
        body.contains_key("total"@),
        body["total"@] == JsonTree::Unsigned(total),
        total <= usize::MAX,
    ensures
        ({
            let r = issues_answer(JsonTree::Object(body), base_url, limit);
            &&& r.provider == "jira"@
            &&& r.resource_type == "issues"@
            &&& r.items.len() == issues.len()
            &&& 0 <= i < issues.len() ==> r.items[i] == issue_item(issues[i], base_url)
            &&& r.total_count == Some(total as usize)
            &&& r.truncated <==> total > limit
        }),
{
}

/// A reply without a list of issues has none, and one without a total counts none.
pub proof fn law_empty_answers(body: JsonTree, base_url: Seq<char>, limit: usize)
    requires
        json::member(body, "issues"@) is None,
        json::member(body, "total"@) is None,
        json::member(body, "values"@) is None,
    ensures
        issues_answer(body, base_url, limit).items.len() == 0,
        issues_answer(body, base_url, limit).total_count == Some(0usize),
        !issues_answer(body, base_url, limit).truncated,
        sprints_answer(body).items.len() == 0,
        sprints_answer(body).total_count == Some(0usize),
{
}

/// The item of an issue: its key, its summary, the name of its status, its reporter, its
/// times, the page where it is shown, its labels and its description.
pub proof fn law_issue_item(
    issue: Map<Seq<char>, JsonTree>,
    fields: Map<Seq<char>, JsonTree>,
    status: Map<Seq<char>, JsonTree>,
    reporter: Map<Seq<char>, JsonTree>,
    base_url: Seq<char>,
)
    requires
        issue.contains_key("key"@),
        issue["key"@] is Text,
        issue.contains_key("fields"@),
        issue["fields"@] == JsonTree::Object(fields),
        fields.contains_key("summary"@),
        fields["summary"@] is Text,
        fields.contains_key("status"@),
        fields["status"@] == JsonTree::Object(status),
        status.contains_key("name"@),
        status["name"@] is Text,
        fields.contains_key("reporter"@),
        fields["reporter"@] == JsonTree::Object(reporter),
        reporter.contains_key("displayName"@),
        reporter["displayName"@] is Text,
        fields.contains_key("created"@),
        fields["created"@] is Text,
        fields.contains_key("updated"@),
        fields["updated"@] is Text,
        fields.contains_key("description"@),
        fields["description"@] is Text,
    ensures
        ({
            let r = issue_item(JsonTree::Object(issue), base_url);
            &&& r.id == issue["key"@]->Text_0
            &&& r.title == fields["summary"@]->Text_0
            &&& r.state == Some(status["name"@]->Text_0)
            &&& r.author == Some(reporter["displayName"@]->Text_0)
            &&& r.created_at == Some(fields["created"@]->Text_0)
            &&& r.updated_at == Some(fields["updated"@]->Text_0)
            &&& r.url == Some(base_url + "/browse/"@ + issue["key"@]->Text_0)
            &&& r.body == Some(fields["description"@]->Text_0)
        }),
{
}

/// What an issue lacks its item lacks: without fields it has its key and its page alone.
pub proof fn law_bare_issue(issue: JsonTree, base_url: Seq<char>)
    requires
        json::member(issue, "fields"@) is None,
    ensures
        ({
            let r = issue_item(issue, base_url);
            &&& r.title.len() == 0
            &&& r.state is None
            &&& r.author is None
            &&& r.created_at is None
            &&& r.updated_at is None
            &&& r.labels.len() == 0
            &&& r.body is None
            &&& json::member(issue, "key"@) is None ==> r.id.len() == 0
            &&& r.url == Some(base_url + "/browse/"@ + r.id)
        }),
{
}

/// The labels are the texts among those that an issue lists, in their order.
pub proof fn law_labels(
    issue: Map<Seq<char>, JsonTree>,
    fields: Map<Seq<char>, JsonTree>,
    labels: Seq<JsonTree>,
    more: Seq<JsonTree>,
    label: JsonTree,
    base_url: Seq<char>,
)
    requires
        issue.contains_key("fields"@),
        issue["fields"@] == JsonTree::Object(fields),
        fields.contains_key("labels"@),
        fields["labels"@] == JsonTree::Array(labels),
    ensures
        issue_item(JsonTree::Object(issue), base_url).labels == texts_among(labels),
        texts_among(Seq::<JsonTree>::empty()).len() == 0,
        label is Text ==> texts_among(more.push(label)) == texts_among(more).push(label->Text_0),
        !(label is Text) ==> texts_among(more.push(label)) == texts_among(more),
{
    assert(more.push(label).drop_last() =~= more);
}

/// A description in rich text is not shown, but noted; any other that is no text is none.
pub proof fn law_rich_description(d: JsonTree, m: Map<Seq<char>, JsonTree>)
    ensures
        d is Text ==> description_of(Some(d)) == Some(d->Text_0),
        m.contains_key("content"@) && m["content"@] is Array ==> description_of(
            Some(JsonTree::Object(m)),
        ) == Some("[Jira rich text — see web UI]"@),
        !m.contains_key("content"@) ==> description_of(Some(JsonTree::Object(m))) is None,
        !(d is Text) && !(d is Object) ==> description_of(Some(d)) is None,
        description_of(None) is None,
{
}

/// The answer for sprints: one item for each sprint of the reply, in its order, and their
/// number; it is never cut off.
pub proof fn law_sprints_answer(body: Map<Seq<char>, JsonTree>, sprints: Seq<JsonTree>, i: int)
    requires
        body.contains_key("values"@),
        body["values"@] == JsonTree::Array(sprints),
        sprints.len() <= usize::MAX,
    ensures
        ({
            let r = sprints_answer(JsonTree::Object(body));
            &&& r.provider == "jira"@
            &&& r.resource_type == "sprints"@
            &&& r.items.len() == sprints.len()
            &&& 0 <= i < sprints.len() ==> r.items[i] == sprint_item(sprints[i])
            &&& r.total_count == Some(sprints.len() as usize)
            &&& !r.truncated
        }),
{
}

/// The item of a sprint: its number, name, state, first and last day, and goal.
pub proof fn law_sprint_item(s: Map<Seq<char>, JsonTree>)
    requires
        s.contains_key("id"@),
        s["id"@] is Unsigned,
        s.contains_key("name"@),
        s["name"@] is Text,
        s.contains_key("state"@),
        s["state"@] is Text,
        s.contains_key("startDate"@),
        s["startDate"@] is Text,
        s.contains_key("endDate"@),
        s["endDate"@] is Text,
        s.contains_key("goal"@),
        s["goal"@] is Text,
    ensures
        ({
            let r = sprint_item(JsonTree::Object(s));
            &&& r.id == text::decimal(s["id"@]->Unsigned_0 as nat)
            &&& r.title == s["name"@]->Text_0
            &&& r.state == Some(s["state"@]->Text_0)
            &&& r.author is None
            &&& r.created_at == Some(s["startDate"@]->Text_0)
            &&& r.updated_at == Some(s["endDate"@]->Text_0)
            &&& r.url is None
            &&& r.labels.len() == 0
            &&& r.body == Some(s["goal"@]->Text_0)
        }),
{
}

} // verus!
