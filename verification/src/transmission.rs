//! Transmission RPC: requests, replies and what they mean.

use vstd::prelude::*;

use crate::binary64::Binary64;
use crate::json::{
    jsons, parsed_json, read_json, the_first_member_of_a_name_is_found, Json, JsonView,
    DOCUMENT_LIMIT,
};
use crate::number::{decimal, write_decimal};
use crate::text::{
    append_text, chars_of, contains, extend, holds_part, occurs_at, same_strings, string_of,
};

verus! {

// ---------------------------------------------------------------------------
// Endpoint
// ---------------------------------------------------------------------------

/// An address that is written in square brackets.
pub open spec fn is_bracketed(ip: Seq<char>) -> bool {
    ip.len() > 0 && ip[0] == '[' && ip.last() == ']'
}

/// How a host is written in an address: one with a colon goes into square brackets.
pub open spec fn host_of(ip: Seq<char>) -> Seq<char> {
    if contains(ip, ":"@) && !is_bracketed(ip) {
        seq!['['] + ip + seq![']']
    } else {
        ip
    }
}

/// The RPC endpoint of Transmission at an IP address and port.
pub fn transmission_endpoint(ip: &str, port: u16) -> (endpoint: String)
    ensures
        endpoint@ == "http://"@ + host_of(ip@) + ":"@ + decimal(port as nat)
            + "/transmission/rpc"@,
{
    let ip = chars_of(ip);
    let bracketed = ip.len() > 0 && ip[0] == '[' && ip[ip.len() - 1] == ']';
    let mut whole = chars_of("http://");
    if holds_part(&ip, ":") && !bracketed {
        whole.push('[');
        extend(&mut whole, &ip);
        whole.push(']');
    } else {
        extend(&mut whole, &ip);
    }
    assert(whole@ =~= "http://"@ + host_of(ip@));
    append_text(&mut whole, ":");
    let digits = write_decimal(port as u64);
    extend(&mut whole, &digits);
    append_text(&mut whole, "/transmission/rpc");
    string_of(&whole)
}

// ---------------------------------------------------------------------------
// Calls
// ---------------------------------------------------------------------------

/// A remote call that can be sent to Transmission.
pub struct RpcCall {
    /// The name of the method.
    pub method: &'static str,
    /// The body of the request.
    pub payload: Json,
}

/// The body of a request.
pub open spec fn payload_of(method: Seq<char>, arguments: JsonView) -> JsonView {
    JsonView::Table(seq![("method"@, JsonView::Text(method)), ("arguments"@, arguments)])
}

fn call_of(method: &'static str, arguments: Json) -> (call: RpcCall)
    ensures
        call.method@ == method@,
        call.payload@ == payload_of(method@, arguments@),
{
    let payload = Json::table_of_two("method", Json::of_text(method), "arguments", arguments);
    RpcCall { method, payload }
}

/// A list of texts.
pub open spec fn text_list(list: Seq<Seq<char>>) -> JsonView {
    JsonView::List(Seq::new(list.len(), |i: int| JsonView::Text(list[i])))
}

/// How often a call is sent at most.
pub const CALL_ATTEMPTS: u32 = 2;

/// The status with which Transmission asks for a session id.
pub const CONFLICT: u16 = 409;

/// A reply to a request.
pub struct Reply {
    pub status: u16,
    /// The header `X-Transmission-Session-Id`.
    pub session_id: Option<Vec<u8>>,
    pub body: String,
}

/// The session id of a reply, as bytes.
pub open spec fn id_of(session_id: Option<Vec<u8>>) -> Option<Seq<u8>> {
    match session_id {
        Some(id) => Some(id@),
        None => None,
    }
}

/// Why a call failed.
#[derive(Clone, Copy, Debug, PartialEq, Eq, Structural)]
pub enum CallError {
    /// A session id was asked for without being given.
    NoSession,
    /// A session id was asked for again.
    RepeatedSession,
    /// The status is no success.
    Status,
    /// The body is no JSON document.
    NotJson,
    /// The body does not report success.
    Refused,
    /// The answer lacks what was asked for.
    Incomplete,
}

/// What is to be done after a reply.
pub enum Step {
    /// Send the call again.
    Again,
    /// Use the answer.
    Done(Json),
    /// Give up.
    Failed(CallError),
}

/// What a [`Step`] says.
pub enum StepView {
    Again,
    Done(JsonView),
    Failed(CallError),
}

impl View for Step {
    type V = StepView;

    open spec fn view(&self) -> StepView {
        match *self {
            Step::Again => StepView::Again,
            Step::Done(json) => StepView::Done(json@),
            Step::Failed(error) => StepView::Failed(error),
        }
    }
}

/// What a body came to: the answer when it is a JSON document that reports success.
pub open spec fn answer_in(document: Option<JsonView>) -> StepView {
    match document {
        None => StepView::Failed(CallError::NotJson),
        Some(json) => if json.member("result"@).text() == Some("success"@) {
            StepView::Done(json)
        } else {
            StepView::Failed(CallError::Refused)
        },
    }
}

/// What is to be done after the reply to the given attempt, the first being number one, where
/// the body came to `document`.
pub open spec fn step_after(
    attempt: u32,
    status: u16,
    session: Option<Seq<u8>>,
    document: Option<JsonView>,
) -> StepView {
    if status == CONFLICT {
        if session is None {
            StepView::Failed(CallError::NoSession)
        } else if attempt < CALL_ATTEMPTS {
            StepView::Again
        } else {
            StepView::Failed(CallError::RepeatedSession)
        }
    } else if !(200 <= status <= 299) {
        StepView::Failed(CallError::Status)
    } else {
        answer_in(document)
    }
}

/// The session id to send after a reply.
pub open spec fn session_after(
    before: Option<Seq<u8>>,
    status: u16,
    session: Option<Seq<u8>>,
) -> Option<Seq<u8>> {
    if status == CONFLICT && session is Some {
        session
    } else {
        before
    }
}

/// What a document that was read out of a body comes to.
pub fn read_answer(document: Option<Json>) -> (step: Step)
    ensures
        step@ == answer_in(
            match document {
                Some(json) => Some(json@),
                None => None,
            },
        ),
{
    match document {
        None => Step::Failed(CallError::NotJson),
        Some(json) => {
            let success = match json.text_of("result") {
                Some(result) => same_strings(result.as_str(), "success"),
                None => false,
            };
            if success {
                Step::Done(json)
            } else {
                Step::Failed(CallError::Refused)
            }
        },
    }
}

/// A call is sent at most twice: no reply to the second attempt asks for a third.
pub proof fn calls_are_sent_at_most_twice(
    status: u16,
    session: Option<Seq<u8>>,
    document: Option<JsonView>,
    attempt: u32,
)
    requires
        attempt >= 2,
    ensures
        !(step_after(attempt, status, session, document) is Again),
{
}

/// A call is sent again only when a session id was asked for and given, and then with that id.
pub proof fn calls_are_sent_again_with_the_session_asked_for(
    before: Option<Seq<u8>>,
    attempt: u32,
    status: u16,
    session: Option<Seq<u8>>,
    document: Option<JsonView>,
)
    requires
        step_after(attempt, status, session, document) is Again,
    ensures
        status == CONFLICT,
        session is Some,
        session_after(before, status, session) == session,
{
}

/// An answer is used only when its status is a success and its body reports success.
pub proof fn answers_are_used_only_on_success(
    attempt: u32,
    status: u16,
    session: Option<Seq<u8>>,
    document: Option<JsonView>,
)
    ensures
        step_after(attempt, status, session, document) is Done <==> 200 <= status <= 299
            && document is Some && document->0.member("result"@).text() == Some("success"@),
{
}

/// How a failed call is reported, given the method, the status in words and the body.
pub open spec fn call_report(
    error: CallError,
    method: Seq<char>,
    status: Seq<char>,
    body: Seq<char>,
) -> Seq<char> {
    match error {
        CallError::NoSession => "Transmission returned 409 without X-Transmission-Session-Id"@,
        CallError::RepeatedSession => {
            "Transmission repeatedly requested a new RPC session id"@
        },
        CallError::Status => "Transmission "@ + method + " returned HTTP "@ + status + ": "@
            + body,
        CallError::NotJson => "decode Transmission JSON response"@,
        CallError::Refused => "Transmission "@ + method + " failed: "@ + body,
        CallError::Incomplete => if method == "session-get"@ {
            "Transmission session-get did not return download-dir"@
        } else if method == "torrent-get"@ {
            "Transmission torrent-get did not return torrents"@
        } else {
            "Transmission accepted torrent-add but returned no torrent-added/torrent-duplicate object"@
        },
    }
}

/// Reports a failed call.
pub fn describe_failure(error: CallError, method: &str, status: &str, body: &str) -> (report:
    String)
    ensures
        report@ == call_report(error, method@, status@, body@),
{
    match error {
        CallError::NoSession => {
            "Transmission returned 409 without X-Transmission-Session-Id".to_owned()
        },
        CallError::RepeatedSession => {
            "Transmission repeatedly requested a new RPC session id".to_owned()
        },
        CallError::Status => {
            let mut whole = chars_of("Transmission ");
            append_text(&mut whole, method);
            append_text(&mut whole, " returned HTTP ");
            append_text(&mut whole, status);
            append_text(&mut whole, ": ");
            append_text(&mut whole, body);
            string_of(&whole)
        },
        CallError::NotJson => "decode Transmission JSON response".to_owned(),
        CallError::Refused => {
            let mut whole = chars_of("Transmission ");
            append_text(&mut whole, method);
            append_text(&mut whole, " failed: ");
            append_text(&mut whole, body);
            string_of(&whole)
        },
        CallError::Incomplete => if same_strings(method, "session-get") {
            "Transmission session-get did not return download-dir".to_owned()
        } else if same_strings(method, "torrent-get") {
            "Transmission torrent-get did not return torrents".to_owned()
        } else {
            "Transmission accepted torrent-add but returned no torrent-added/torrent-duplicate object".to_owned()
        },
    }
}

// ---------------------------------------------------------------------------
// Completed torrents
// ---------------------------------------------------------------------------

/// A torrent that is complete.
#[derive(Debug)]
pub struct CompletedTorrent {
    pub id: i64,
    pub name: String,
    pub download_dir: String,
}

/// What a [`CompletedTorrent`] says.
#[verifier::ext_equal]
pub struct CompletedView {
    pub id: i64,
    pub name: Seq<char>,
    pub download_dir: Seq<char>,
}

impl View for CompletedTorrent {
    type V = CompletedView;

    open spec fn view(&self) -> CompletedView {
        CompletedView { id: self.id, name: self.name@, download_dir: self.download_dir@ }
    }
}

/// Several completed torrents at once.
pub open spec fn completed(list: Seq<CompletedTorrent>) -> Seq<CompletedView> {
    Seq::new(list.len(), |i: int| list[i]@)
}

/// The double 0.999999, from which on a download counts as complete.
pub const NEARLY_ONE_BITS: u64 = 0x3fef_fffd_e721_0be9;

/// A share of at least 0.999999.
pub open spec fn is_whole(percent_done: JsonView) -> bool {
    match percent_done {
        JsonView::Integer(number) => number >= 1,
        JsonView::Double(number) => number.is_finite() && number.value() >= (Binary64 {
            bits: NEARLY_ONE_BITS,
        }).value(),
        _ => false,
    }
}

/// A torrent that seeds, or that stopped when it was complete; the status is a number or a
/// word.
pub open spec fn is_complete(status: JsonView, percent_done: JsonView) -> bool {
    match status {
        JsonView::Integer(number) => number == 6 || (number == 0 && is_whole(percent_done)),
        JsonView::Text(text) => text == "seeding"@ || (text == "stopped"@ && is_whole(
            percent_done,
        )),
        _ => false,
    }
}

fn whole(percent_done: &Json) -> (found: bool)
    ensures
        found == is_whole(percent_done@),
{
    match percent_done {
        Json::Integer(number) => *number >= 1,
        Json::Double(number) => {
            let limit = Binary64 { bits: NEARLY_ONE_BITS };
            number.bits % 0x8000_0000_0000_0000 < 0x7ff0_0000_0000_0000 && !limit.greater(*number)
        },
        _ => false,
    }
}

/// Whether a torrent with the given status and share is complete.
pub fn is_completed_torrent(status: &Json, percent_done: &Json) -> (found: bool)
    ensures
        found == is_complete(status@, percent_done@),
{
    match status {
        Json::Integer(number) => *number == 6 || (*number == 0 && whole(percent_done)),
        Json::Text(text) => same_strings(text.as_str(), "seeding") || (same_strings(
            text.as_str(),
            "stopped",
        ) && whole(percent_done)),
        _ => false,
    }
}

/// The completed torrent that an item of an answer describes: it needs an id and a directory.
pub open spec fn completed_in(torrent: JsonView) -> Option<CompletedView> {
    if !is_complete(torrent.member("status"@), torrent.member("percentDone"@)) {
        None
    } else {
        match (torrent.member("id"@).integer(), torrent.member("downloadDir"@).text()) {
            (Some(id), Some(download_dir)) => Some(
                CompletedView {
                    id,
                    name: match torrent.member("name"@).text() {
                        Some(name) => name,
                        None => "completed movie"@,
                    },
                    download_dir,
                },
            ),
            _ => None,
        }
    }
}

/// The completed torrents that the items of an answer describe, in their order.
pub open spec fn completed_among(list: Seq<JsonView>) -> Seq<CompletedView>
    decreases list.len(),
{
    if list.len() == 0 {
        seq![]
    } else {
        let front = completed_among(list.drop_last());
        match completed_in(list.last()) {
            Some(torrent) => front.push(torrent),
            None => front,
        }
    }
}

/// Only torrents that are complete are listed, each with the id and directory that were
/// reported.
pub proof fn only_complete_torrents_are_listed(list: Seq<JsonView>, at: int) -> (place: int)
    requires
        0 <= at < completed_among(list).len(),
    ensures
        0 <= place < list.len(),
        is_complete(list[place].member("status"@), list[place].member("percentDone"@)),
        list[place].member("id"@).integer() == Some(completed_among(list)[at].id),
        list[place].member("downloadDir"@).text() == Some(completed_among(list)[at].download_dir),
    decreases list.len(),
{
    let front = list.drop_last();
    if at < completed_among(front).len() {
        let place = only_complete_torrents_are_listed(front, at);
        assert(front[place] == list[place]);
        place
    } else {
        list.len() - 1
    }
}

fn read_torrent(torrent: &Json) -> (found: Option<CompletedTorrent>)
    ensures
        match found {
            Some(found) => completed_in(torrent@) == Some(found@),
            None => completed_in(torrent@) is None,
        },
{
    let null = Json::Null;
    let status = match torrent.find("status") {
        Some(status) => status,
        None => &null,
    };
    let percent_done = match torrent.find("percentDone") {
        Some(percent_done) => percent_done,
        None => &null,
    };
    if !is_completed_torrent(status, percent_done) {
        return None;
    }
    match (torrent.integer_of("id"), torrent.text_of("downloadDir")) {
        (Some(id), Some(download_dir)) => {
            let name = match torrent.text_of("name") {
                Some(name) => name.clone(),
                None => "completed movie".to_owned(),
            };
            Some(CompletedTorrent { id, name, download_dir: download_dir.clone() })
        },
        _ => None,
    }
}

// ---------------------------------------------------------------------------
// The client
// ---------------------------------------------------------------------------

/// The state of the connection to Transmission.
#[derive(Debug)]
pub struct TransmissionClient {
    endpoint: String,
    session_id: Option<Vec<u8>>,
}

impl TransmissionClient {
    /// The address that calls are sent to.
    pub closed spec fn address(&self) -> Seq<char> {
        self.endpoint@
    }

    /// The session id that calls carry.
    pub closed spec fn session(&self) -> Option<Seq<u8>> {
        id_of(self.session_id)
    }

    pub fn new(endpoint: String) -> (client: Self)
        ensures
            client.address() == endpoint@,
            client.session() is None,
    {
        TransmissionClient { endpoint, session_id: None }
    }

    /// The address that calls are sent to.
    pub fn endpoint(&self) -> (address: &str)
        ensures
            address@ == self.address(),
    {
        self.endpoint.as_str()
    }

    /// The session id that calls carry.
    pub fn session_id(&self) -> (id: Option<&Vec<u8>>)
        ensures
            match id {
                Some(id) => self.session() == Some(id@),
                None => self.session() is None,
            },
    {
        match &self.session_id {
            Some(id) => Some(id),
            None => None,
        }
    }

    /// What is to be done after the reply to the given attempt at a call, the first being
    /// number one.
    pub fn call(&mut self, attempt: u32, reply: Reply) -> (step: Step)
        requires
            reply.body@.len() <= DOCUMENT_LIMIT,
        ensures
            step@ == step_after(
                attempt,
                reply.status,
                id_of(reply.session_id),
                parsed_json(reply.body@),
            ),
            final(self).address() == old(self).address(),
            final(self).session() == session_after(
                old(self).session(),
                reply.status,
                id_of(reply.session_id),
            ),
    {
        if reply.status == CONFLICT {
            match reply.session_id {
                None => Step::Failed(CallError::NoSession),
                Some(id) => {
                    self.session_id = Some(id);
                    if attempt < CALL_ATTEMPTS {
                        Step::Again
                    } else {
                        Step::Failed(CallError::RepeatedSession)
                    }
                },
            }
        } else if reply.status < 200 || reply.status > 299 {
            Step::Failed(CallError::Status)
        } else {
            let document = read_json(reply.body.as_str());
            read_answer(document)
        }
    }

    /// The read-only call that asks for the download directory.
    pub fn session_request() -> (call: RpcCall)
        ensures
            call.method@ == "session-get"@,
            call.payload@ == payload_of(
                "session-get"@,
                JsonView::Table(seq![("fields"@, text_list(seq!["download-dir"@]))]),
            ),
    {
        let mut fields: Vec<Json> = Vec::new();
        fields.push(Json::of_text("download-dir"));
        let list = Json::List(fields);
        assert(list@->List_0 =~= text_list(seq!["download-dir"@])->List_0);
        call_of("session-get", Json::table_of_one("fields", list))
    }

    /// The download directory in the answer to [`TransmissionClient::session_request`].
    pub fn session_download_dir(answer: &Json) -> (directory: Result<String, CallError>)
        ensures
            match directory {
                Ok(directory) => answer@.member("arguments"@).member("download-dir"@).text()
                    == Some(directory@),
                Err(error) => error == CallError::Incomplete && answer@.member(
                    "arguments"@,
                ).member("download-dir"@).text() is None,
            },
    {
        match answer.find("arguments") {
            Some(arguments) => match arguments.text_of("download-dir") {
                Some(directory) => Ok(directory.clone()),
                None => Err(CallError::Incomplete),
            },
            None => Err(CallError::Incomplete),
        }
    }

    /// The call that adds a torrent, to be downloaded into a directory.
    pub fn add_request(url: &str, download_dir: &str) -> (call: RpcCall)
        ensures
            call.method@ == "torrent-add"@,
            call.payload@ == payload_of(
                "torrent-add"@,
                JsonView::Table(
                    seq![
                        ("filename"@, JsonView::Text(url@)),
                        ("download-dir"@, JsonView::Text(download_dir@)),
                    ],
                ),
            ),
    {
        let arguments = Json::table_of_two(
            "filename",
            Json::of_text(url),
            "download-dir",
            Json::of_text(download_dir),
        );
        call_of("torrent-add", arguments)
    }

    /// Whether the answer to [`TransmissionClient::add_request`] names the torrent, be it new or
    /// one that Transmission had already.
    pub fn add_torrent(answer: &Json) -> (added: Result<(), CallError>)
        ensures
            added is Ok <==> answer@.member("arguments"@).found("torrent-added"@) is Some
                || answer@.member("arguments"@).found("torrent-duplicate"@) is Some,
            added is Err ==> added->Err_0 == CallError::Incomplete,
    {
        match answer.find("arguments") {
            Some(arguments) => if arguments.find("torrent-added").is_some() || arguments.find(
                "torrent-duplicate",
            ).is_some() {
                Ok(())
            } else {
                Err(CallError::Incomplete)
            },
            None => Err(CallError::Incomplete),
        }
    }

    /// The call that asks for all torrents.
    pub fn completed_request() -> (call: RpcCall)
        ensures
            call.method@ == "torrent-get"@,
            call.payload@ == payload_of(
                "torrent-get"@,
                JsonView::Table(
                    seq![
                        (
                            "fields"@,
                            text_list(
                                seq![
                                    "id"@,
                                    "name"@,
                                    "status"@,
                                    "percentDone"@,
                                    "downloadDir"@,
                                ],
                            ),
                        ),
                    ],
                ),
            ),
    {
        let mut fields: Vec<Json> = Vec::new();
        fields.push(Json::of_text("id"));
        fields.push(Json::of_text("name"));
        fields.push(Json::of_text("status"));
        fields.push(Json::of_text("percentDone"));
        fields.push(Json::of_text("downloadDir"));
        let list = Json::List(fields);
        assert(list@->List_0 =~= text_list(
            seq!["id"@, "name"@, "status"@, "percentDone"@, "downloadDir"@],
        )->List_0);
        call_of("torrent-get", Json::table_of_one("fields", list))
    }

    /// The completed torrents in the answer to [`TransmissionClient::completed_request`].
    pub fn completed_torrents(answer: &Json) -> (torrents: Result<
        Vec<CompletedTorrent>,
        CallError,
    >)
        ensures
            match answer@.member("arguments"@).member("torrents"@).list() {
                Some(list) => torrents is Ok && completed(torrents->Ok_0@) == completed_among(list),
                None => torrents is Err && torrents->Err_0 == CallError::Incomplete,
            },
    {
        let arguments = match answer.find("arguments") {
            Some(arguments) => arguments,
            None => {
                return Err(CallError::Incomplete);
            },
        };
        let torrents = match arguments.find("torrents") {
            Some(torrents) => torrents,
            None => {
                return Err(CallError::Incomplete);
            },
        };
        let list = match torrents.as_list() {
            Some(list) => list,
            None => {
                return Err(CallError::Incomplete);
            },
        };
        let ghost all = jsons(list@);
        let mut found: Vec<CompletedTorrent> = Vec::new();
        let mut i: usize = 0;
        while i < list.len()
            invariant
                i <= list@.len(),
                all == jsons(list@),
                completed(found@) == completed_among(all.take(i as int)),
            decreases list@.len() - i,
        {
            let ghost next = all.take(i + 1);
            assert(next.drop_last() == all.take(i as int));
            assert(next.last() == list@[i as int]@);
            let ghost before = completed(found@);
            match read_torrent(&list[i]) {
                Some(torrent) => {
                    found.push(torrent);
                    assert(completed(found@) =~= before.push(torrent@));
                },
                None => {},
            }
            i += 1;
        }
        assert(all.take(list@.len() as int) == all);
        Ok(found)
    }

    /// The call that makes Transmission forget a torrent and leave its files.
    pub fn remove_torrent(id: i64) -> (call: RpcCall)
        ensures
            call.method@ == "torrent-remove"@,
            call.payload@ == payload_of(
                "torrent-remove"@,
                JsonView::Table(
                    seq![
                        ("ids"@, JsonView::List(seq![JsonView::Integer(id)])),
                        ("delete-local-data"@, JsonView::Bool(false)),
                    ],
                ),
            ),
    {
        let mut ids: Vec<Json> = Vec::new();
        ids.push(Json::Integer(id));
        assert(ids@[0]@ == JsonView::Integer(id));
        let list = Json::List(ids);
        assert(list@->List_0 =~= seq![JsonView::Integer(id)]);
        let arguments = Json::table_of_two("ids", list, "delete-local-data", Json::Bool(false));
        call_of("torrent-remove", arguments)
    }
}

// ---------------------------------------------------------------------------
// Laws
// ---------------------------------------------------------------------------

/// A host is put into square brackets exactly where a colon stands in it and it is not in square
/// brackets already; otherwise it stays as it is.
pub proof fn hosts_with_a_colon_go_into_brackets(ip: Seq<char>)
    ensures
        ({
            let colon = exists|i: int| 0 <= i < ip.len() && #[trigger] ip[i] == ':';
            let bracketed = ip.len() > 0 && ip[0] == '[' && ip[ip.len() - 1] == ']';
            host_of(ip) == if colon && !bracketed {
                seq!['['] + ip + seq![']']
            } else {
                ip
            }
        }),
{
    reveal_strlit(":");
    let part = ":"@;
    assert(part =~= seq![':']);
    if contains(ip, part) {
        let i = choose|i: int| occurs_at(ip, part, i);
        assert(ip.subrange(i, i + 1)[0] == ip[i]);
        assert(ip[i] == ':');
    }
    if exists|i: int| 0 <= i < ip.len() && #[trigger] ip[i] == ':' {
        let i = choose|i: int| 0 <= i < ip.len() && #[trigger] ip[i] == ':';
        assert(ip.subrange(i, i + 1) =~= part);
        assert(occurs_at(ip, part, i));
    }
}

/// What is to be done after a reply. The status 409 asks for a session id: without one the call
/// fails; with one it is sent again after the first attempt, and fails after the second. Any other
/// status outside 200 to 299 fails, and so does a body that is no document or one whose member
/// `result` is not the text `success`; else the document is the answer.
pub proof fn replies_decide_what_is_done(
    attempt: u32,
    status: u16,
    session: Option<Seq<u8>>,
    document: Option<JsonView>,
)
    ensures
        step_after(attempt, status, session, document) == (if status == 409 {
            if session is None {
                StepView::Failed(CallError::NoSession)
            } else if attempt < 2 {
                StepView::Again
            } else {
                StepView::Failed(CallError::RepeatedSession)
            }
        } else if status < 200 || status > 299 {
            StepView::Failed(CallError::Status)
        } else if document is None {
            StepView::Failed(CallError::NotJson)
        } else if document->0.member("result"@) == JsonView::Text("success"@) {
            StepView::Done(document->0)
        } else {
            StepView::Failed(CallError::Refused)
        }),
{
}

/// The session id to send is the last one that came with a status of 409.
pub proof fn session_ids_come_with_conflicts(
    before: Option<Seq<u8>>,
    status: u16,
    session: Option<Seq<u8>>,
)
    ensures
        status == 409 && session is Some ==> session_after(before, status, session) == session,
        status != 409 || session is None ==> session_after(before, status, session) == before,
{
}

/// A torrent is complete exactly where its status is the number six or the word `seeding`, or the
/// number zero or the word `stopped` and the share of what is done is a number of at least
/// 0.999999, which is the double written so.
pub proof fn complete_torrents_seed_or_stopped_when_done(status: JsonView, done: JsonView)
    ensures
        ({
            let share = (done is Integer && done->Integer_0 >= 1) || (done is Double
                && done->Double_0.is_finite() && done->Double_0.value() >= (Binary64 {
                bits: 0x3fef_fffd_e721_0be9,
            }).value());
            is_complete(status, done) <==> status == JsonView::Integer(6) || status
                == JsonView::Text("seeding"@) || (share && (status == JsonView::Integer(0) || status
                == JsonView::Text("stopped"@)))
        }),
{
    reveal_strlit("seeding");
    reveal_strlit("stopped");
    assert("seeding"@[1] == 'e' && "stopped"@[1] == 't');
}

/// The completed torrents of two lists are those of the first and then those of the second. A
/// single one is listed exactly where it is complete, its member `id` is an integer and its member
/// `downloadDir` is a text; with its member `name` where that is a text, and as `completed movie`
/// where it is not.
pub proof fn torrents_are_read_one_by_one(left: Seq<JsonView>, right: Seq<JsonView>, one: JsonView)
    ensures
        completed_among(left + right) == completed_among(left) + completed_among(right),
        completed_among(seq![one]) == (if is_complete(
            one.member("status"@),
            one.member("percentDone"@),
        ) && one.member("id"@) is Integer && one.member("downloadDir"@) is Text {
            seq![
                CompletedView {
                    id: one.member("id"@)->Integer_0,
                    name: match one.member("name"@) {
                        JsonView::Text(name) => name,
                        _ => "completed movie"@,
                    },
                    download_dir: one.member("downloadDir"@)->Text_0,
                },
            ]
        } else {
            Seq::<CompletedView>::empty()
        }),
    decreases right.len(),
{
    if right.len() == 0 {
        assert(left + right =~= left);
        assert(completed_among(left) + completed_among(right) =~= completed_among(left));
    } else {
        torrents_are_read_one_by_one(left, right.drop_last(), one);
        assert((left + right).drop_last() =~= left + right.drop_last());
        assert((left + right).last() == right.last());
        assert(completed_among(left + right) =~= completed_among(left) + completed_among(right));
    }
    reveal_with_fuel(completed_among, 2);
    assert(seq![one].drop_last() =~= Seq::empty());
    let expected = if is_complete(one.member("status"@), one.member("percentDone"@)) && one.member(
        "id"@,
    ) is Integer && one.member("downloadDir"@) is Text {
        seq![
            CompletedView {
                id: one.member("id"@)->Integer_0,
                name: match one.member("name"@) {
                    JsonView::Text(name) => name,
                    _ => "completed movie"@,
                },
                download_dir: one.member("downloadDir"@)->Text_0,
            },
        ]
    } else {
        Seq::<CompletedView>::empty()
    };
    assert(completed_among(seq![one]) =~= expected);
}

/// A request names its method and its arguments, under these names.
pub proof fn requests_name_their_method_and_arguments(method: Seq<char>, arguments: JsonView)
    ensures
        payload_of(method, arguments).member("method"@) == JsonView::Text(method),
        payload_of(method, arguments).member("arguments"@) == arguments,
{
    reveal_strlit("method");
    reveal_strlit("arguments");
    assert("method"@[0] == 'm' && "arguments"@[0] == 'a');
    let table = payload_of(method, arguments)->Table_0;
    the_first_member_of_a_name_is_found(table, "method"@, 0);
    the_first_member_of_a_name_is_found(table, "arguments"@, 1);
}

/// The endpoint is made of the host, which goes into brackets where a colon stands in it, and of
/// the port.
pub proof fn endpoints_are_made_of_host_and_port(ip: &str, port: u16, endpoint: String)
    requires
        call_ensures(transmission_endpoint, (ip, port), endpoint),
    ensures
        ({
            let colon = exists|i: int| 0 <= i < ip@.len() && #[trigger] ip@[i] == ':';
            let bracketed = ip@.len() > 0 && ip@[0] == '[' && ip@[ip@.len() - 1] == ']';
            endpoint@ == (if colon && !bracketed {
                "http://"@ + (seq!['['] + ip@ + seq![']'])
            } else {
                "http://"@ + ip@
            }) + ":"@ + decimal(port as nat) + "/transmission/rpc"@
        }),
{
    hosts_with_a_colon_go_into_brackets(ip@);
}

proof fn lemma_two_members(key: Seq<char>, value: JsonView, other_key: Seq<char>, other: JsonView)
    requires
        key != other_key,
    ensures
        JsonView::Table(seq![(key, value), (other_key, other)]).member(key) == value,
        JsonView::Table(seq![(key, value), (other_key, other)]).member(other_key) == other,
{
    let table = seq![(key, value), (other_key, other)];
    the_first_member_of_a_name_is_found(table, key, 0);
    the_first_member_of_a_name_is_found(table, other_key, 1);
}

/// To add a torrent is to call `torrent-add` with its address as `filename` and the directory as
/// `download-dir`.
pub proof fn torrents_are_added_by_address_and_directory(
    url: &str,
    download_dir: &str,
    call: RpcCall,
)
    requires
        call_ensures(TransmissionClient::add_request, (url, download_dir), call),
    ensures
        call.method@ == "torrent-add"@,
        call.payload@.member("method"@) == JsonView::Text("torrent-add"@),
        call.payload@.member("arguments"@).member("filename"@) == JsonView::Text(url@),
        call.payload@.member("arguments"@).member("download-dir"@) == JsonView::Text(
            download_dir@,
        ),
{
    let arguments = JsonView::Table(
        seq![
            ("filename"@, JsonView::Text(url@)),
            ("download-dir"@, JsonView::Text(download_dir@)),
        ],
    );
    requests_name_their_method_and_arguments("torrent-add"@, arguments);
    reveal_strlit("filename");
    reveal_strlit("download-dir");
    assert("filename"@[0] == 'f' && "download-dir"@[0] == 'd');
    lemma_two_members(
        "filename"@,
        JsonView::Text(url@),
        "download-dir"@,
        JsonView::Text(download_dir@),
    );
}

/// To forget a torrent is to call `torrent-remove` with its id alone, and never to delete what was
/// downloaded.
pub proof fn forgotten_torrents_keep_their_files(id: i64, call: RpcCall)
    requires
        call_ensures(TransmissionClient::remove_torrent, (id,), call),
    ensures
        call.method@ == "torrent-remove"@,
        call.payload@.member("method"@) == JsonView::Text("torrent-remove"@),
        call.payload@.member("arguments"@).member("ids"@) == JsonView::List(
            seq![JsonView::Integer(id)],
        ),
        call.payload@.member("arguments"@).member("delete-local-data"@) == JsonView::Bool(false),
{
    let ids = JsonView::List(seq![JsonView::Integer(id)]);
    let arguments = JsonView::Table(
        seq![("ids"@, ids), ("delete-local-data"@, JsonView::Bool(false))],
    );
    requests_name_their_method_and_arguments("torrent-remove"@, arguments);
    reveal_strlit("ids");
    reveal_strlit("delete-local-data");
    assert("ids"@[0] == 'i' && "delete-local-data"@[0] == 'd');
    lemma_two_members("ids"@, ids, "delete-local-data"@, JsonView::Bool(false));
}

/// The download directory is asked for by `session-get`, and the torrents by `torrent-get`, with
/// every field that is read of them.
pub proof fn what_is_read_is_asked_for(session: RpcCall, torrents: RpcCall)
    requires
        call_ensures(TransmissionClient::session_request, (), session),
        call_ensures(TransmissionClient::completed_request, (), torrents),
    ensures
        session.method@ == "session-get"@,
        session.payload@.member("method"@) == JsonView::Text("session-get"@),
        session.payload@.member("arguments"@).member("fields"@) == JsonView::List(
            seq![JsonView::Text("download-dir"@)],
        ),
        torrents.method@ == "torrent-get"@,
        torrents.payload@.member("method"@) == JsonView::Text("torrent-get"@),
        torrents.payload@.member("arguments"@).member("fields"@) == JsonView::List(
            seq![
                JsonView::Text("id"@),
                JsonView::Text("name"@),
                JsonView::Text("status"@),
                JsonView::Text("percentDone"@),
                JsonView::Text("downloadDir"@),
            ],
        ),
{
    let one = text_list(seq!["download-dir"@]);
    let five = text_list(seq!["id"@, "name"@, "status"@, "percentDone"@, "downloadDir"@]);
    requests_name_their_method_and_arguments(
        "session-get"@,
        JsonView::Table(seq![("fields"@, one)]),
    );
    requests_name_their_method_and_arguments(
        "torrent-get"@,
        JsonView::Table(seq![("fields"@, five)]),
    );
    the_first_member_of_a_name_is_found(seq![("fields"@, one)], "fields"@, 0);
    the_first_member_of_a_name_is_found(seq![("fields"@, five)], "fields"@, 0);
    assert(one->List_0 =~= seq![JsonView::Text("download-dir"@)]);
    assert(five->List_0 =~= seq![
        JsonView::Text("id"@),
        JsonView::Text("name"@),
        JsonView::Text("status"@),
        JsonView::Text("percentDone"@),
        JsonView::Text("downloadDir"@),
    ]);
}

/// The download directory is the text `download-dir` among the arguments of the answer; without
/// it the answer is incomplete.
pub proof fn download_directories_are_read_from_the_answer(
    answer: &Json,
    directory: Result<String, CallError>,
)
    requires
        call_ensures(TransmissionClient::session_download_dir, (answer,), directory),
    ensures
        ({
            let said = answer@.member("arguments"@).member("download-dir"@);
            &&& said is Text ==> directory is Ok && directory->Ok_0@ == said->Text_0
            &&& !(said is Text) ==> directory is Err && directory->Err_0 is Incomplete
        }),
{
}

/// A torrent was added where the arguments of the answer have a member `torrent-added` or
/// `torrent-duplicate`, and else the answer is incomplete.
pub proof fn torrents_are_added_or_were_there(answer: &Json, added: Result<(), CallError>)
    requires
        call_ensures(TransmissionClient::add_torrent, (answer,), added),
    ensures
        added is Ok <==> answer@.member("arguments"@).found("torrent-added"@) is Some
            || answer@.member("arguments"@).found("torrent-duplicate"@) is Some,
        added is Err ==> added->Err_0 is Incomplete,
{
}

/// Completed torrents are read from the list `torrents` among the arguments of the answer: every
/// one of its items that is complete and has an id and a directory is among them.
pub proof fn every_complete_torrent_is_read(
    answer: &Json,
    torrents: Result<Vec<CompletedTorrent>, CallError>,
    at: int,
)
    requires
        call_ensures(TransmissionClient::completed_torrents, (answer,), torrents),
    ensures
        ({
            let said = answer@.member("arguments"@).member("torrents"@);
            &&& !(said is List) ==> torrents is Err && torrents->Err_0 is Incomplete
            &&& said is List ==> torrents is Ok
            &&& said is List && 0 <= at < said->List_0.len() && is_complete(
                said->List_0[at].member("status"@),
                said->List_0[at].member("percentDone"@),
            ) && said->List_0[at].member("id"@) is Integer && said->List_0[at].member(
                "downloadDir"@,
            ) is Text ==> exists|i: int|
                0 <= i < torrents->Ok_0@.len() && (#[trigger] torrents->Ok_0@[i]).id
                    == said->List_0[at].member("id"@)->Integer_0 && torrents->Ok_0@[i].download_dir@
                    == said->List_0[at].member("downloadDir"@)->Text_0
        }),
{
    let said = answer@.member("arguments"@).member("torrents"@);
    if said is List && 0 <= at < said->List_0.len() {
        let list = said->List_0;
        let one = list[at];
        if is_complete(one.member("status"@), one.member("percentDone"@)) && one.member("id"@)
            is Integer && one.member("downloadDir"@) is Text {
            let left = list.take(at);
            let right = list.skip(at + 1);
            assert(list =~= left + seq![one] + right);
            torrents_are_read_one_by_one(left + seq![one], right, one);
            torrents_are_read_one_by_one(left, seq![one], one);
            let found = torrents->Ok_0@;
            let i = completed_among(left).len() as int;
            assert(completed(found) == completed_among(left) + completed_among(seq![one])
                + completed_among(right));
            assert(completed(found).len() == found.len());
            assert(completed(found)[i] == found[i]@);
            assert(completed(found)[i] == completed_among(seq![one])[0]);
            assert(found[i].id == one.member("id"@)->Integer_0);
        }
    }
}

/// How failed calls are reported.
pub proof fn failures_are_reported_in_words(
    error: CallError,
    method: &str,
    status: &str,
    body: &str,
    report: String,
)
    requires
        call_ensures(describe_failure, (error, method, status, body), report),
    ensures
        error is NoSession ==> report@
            == "Transmission returned 409 without X-Transmission-Session-Id"@,
        error is RepeatedSession ==> report@
            == "Transmission repeatedly requested a new RPC session id"@,
        error is Status ==> report@ == "Transmission "@ + method@ + " returned HTTP "@ + status@
            + ": "@ + body@,
        error is NotJson ==> report@ == "decode Transmission JSON response"@,
        error is Refused ==> report@ == "Transmission "@ + method@ + " failed: "@ + body@,
        error is Incomplete && method@ == "session-get"@ ==> report@
            == "Transmission session-get did not return download-dir"@,
        error is Incomplete && method@ == "torrent-get"@ ==> report@
            == "Transmission torrent-get did not return torrents"@,
        error is Incomplete && method@ == "torrent-add"@ ==> report@
            == "Transmission accepted torrent-add but returned no torrent-added/torrent-duplicate object"@,
{
    reveal_strlit("session-get");
    reveal_strlit("torrent-get");
    reveal_strlit("torrent-add");
    assert("session-get"@[0] == 's' && "torrent-get"@[0] == 't' && "torrent-add"@[0] == 't');
    assert("torrent-get"@[8] == 'g' && "torrent-add"@[8] == 'a');
}

/// A reply that asks for a session id sets it, where it gives one, and the call is sent again after
/// the first attempt only. Any other reply leaves the session id, and ends the call: with its
/// document where the status is a success and `result` is `success`, and else with a failure.
pub proof fn calls_are_answered_by_their_replies(
    client: &mut TransmissionClient,
    attempt: u32,
    reply: Reply,
    step: Step,
)
    requires
        call_ensures(TransmissionClient::call, (client, attempt, reply), step),
    ensures
        final(client).address() == old(client).address(),
        reply.status == 409 && reply.session_id is Some ==> {
            &&& final(client).session() == Some(reply.session_id->0@)
            &&& attempt < 2 ==> step is Again
            &&& attempt >= 2 ==> step == Step::Failed(CallError::RepeatedSession)
        },
        reply.status == 409 && reply.session_id is None ==> final(client).session() == old(
            client,
        ).session() && step == Step::Failed(CallError::NoSession),
        reply.status != 409 ==> final(client).session() == old(client).session() && !(step
            is Again),
        step is Done ==> 200 <= reply.status <= 299 && parsed_json(reply.body@) == Some(
            step->Done_0@,
        ) && step->Done_0@.member("result"@) == JsonView::Text("success"@),
        200 <= reply.status <= 299 && parsed_json(reply.body@) is Some && parsed_json(
            reply.body@,
        )->0.member("result"@) == JsonView::Text("success"@) ==> step is Done,
{
    let session = id_of(reply.session_id);
    let document = parsed_json(reply.body@);
    replies_decide_what_is_done(attempt, reply.status, session, document);
    session_ids_come_with_conflicts(old(client).session(), reply.status, session);
}

} // verus!
