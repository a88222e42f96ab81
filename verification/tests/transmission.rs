use hd_movies::binary64::Binary64;
use hd_movies::json::{read_json, Json};
use hd_movies::transmission::{
    describe_failure, is_completed_torrent, transmission_endpoint, CallError, Reply, Step,
    TransmissionClient,
};

fn reply(status: u16, session_id: Option<&str>, body: &str) -> Reply {
    Reply {
        status,
        session_id: session_id.map(|id| id.as_bytes().to_vec()),
        body: body.to_owned(),
    }
}

fn client() -> TransmissionClient {
    TransmissionClient::new(transmission_endpoint("127.0.0.1", 9999))
}

fn error(step: Step) -> CallError {
    match step {
        Step::Failed(error) => error,
        Step::Again => panic!("again"),
        Step::Done(_) => panic!("done"),
    }
}

fn text<'a>(json: &'a Json, key: &str) -> &'a str {
    json.text_of(key).unwrap()
}

#[test]
fn builds_standard_transmission_rpc_endpoints() {
    assert_eq!(
        transmission_endpoint("192.168.0.127", 9999),
        "http://192.168.0.127:9999/transmission/rpc"
    );
    assert_eq!(
        transmission_endpoint("fd00::2", 9091),
        "http://[fd00::2]:9091/transmission/rpc"
    );
}

#[test]
fn brackets_are_not_doubled() {
    assert_eq!(transmission_endpoint("[::1]", 1), "http://[::1]:1/transmission/rpc");
    assert_eq!(transmission_endpoint("host", 0), "http://host:0/transmission/rpc");
}

#[test]
fn a_session_id_is_taken_up_once() {
    let mut client = client();
    assert!(client.session_id().is_none());
    assert!(matches!(client.call(1, reply(409, Some("abc"), "")), Step::Again));
    assert_eq!(client.session_id().unwrap().as_slice(), b"abc");
    assert_eq!(error(client.call(2, reply(409, Some("def"), ""))), CallError::RepeatedSession);
    assert_eq!(client.session_id().unwrap().as_slice(), b"def");
    assert_eq!(client.endpoint(), "http://127.0.0.1:9999/transmission/rpc");
}

#[test]
fn replies_without_success_fail() {
    let mut client = client();
    assert_eq!(error(client.call(1, reply(409, None, ""))), CallError::NoSession);
    assert_eq!(error(client.call(1, reply(404, None, "{\"result\": \"success\"}"))), CallError::Status);
    assert_eq!(error(client.call(1, reply(200, None, "not json"))), CallError::NotJson);
    assert_eq!(error(client.call(1, reply(200, None, "{\"result\": \"no\"}"))), CallError::Refused);
    assert_eq!(error(client.call(1, reply(200, None, "{}"))), CallError::Refused);
    assert!(matches!(
        client.call(1, reply(200, None, "{\"result\": \"success\"}")),
        Step::Done(_)
    ));
}

#[test]
fn reports_failures_in_words() {
    assert_eq!(
        describe_failure(CallError::Status, "torrent-add", "404 Not Found", "gone"),
        "Transmission torrent-add returned HTTP 404 Not Found: gone"
    );
    assert_eq!(
        describe_failure(CallError::Refused, "torrent-add", "200 OK", "{}"),
        "Transmission torrent-add failed: {}"
    );
    assert_eq!(
        describe_failure(CallError::NoSession, "x", "", ""),
        "Transmission returned 409 without X-Transmission-Session-Id"
    );
    assert_eq!(
        describe_failure(CallError::RepeatedSession, "x", "", ""),
        "Transmission repeatedly requested a new RPC session id"
    );
    assert_eq!(
        describe_failure(CallError::NotJson, "x", "", ""),
        "decode Transmission JSON response"
    );
    assert_eq!(
        describe_failure(CallError::Incomplete, "session-get", "", ""),
        "Transmission session-get did not return download-dir"
    );
    assert_eq!(
        describe_failure(CallError::Incomplete, "torrent-get", "", ""),
        "Transmission torrent-get did not return torrents"
    );
    assert_eq!(
        describe_failure(CallError::Incomplete, "torrent-add", "", ""),
        "Transmission accepted torrent-add but returned no torrent-added/torrent-duplicate object"
    );
}

#[test]
fn asks_for_the_download_directory() {
    let call = TransmissionClient::session_request();
    assert_eq!(call.method, "session-get");
    assert_eq!(text(&call.payload, "method"), "session-get");
    let fields = call.payload.find("arguments").unwrap().find("fields").unwrap();
    assert_eq!(fields.as_list().unwrap().len(), 1);
    assert_eq!(fields.as_list().unwrap()[0].as_text().unwrap(), "download-dir");

    let answer = read_json("{\"arguments\": {\"download-dir\": \"/mnt/downloads\"}}").unwrap();
    assert_eq!(TransmissionClient::session_download_dir(&answer).unwrap(), "/mnt/downloads");
    let answer = read_json("{\"arguments\": {\"download-dir\": 7}}").unwrap();
    assert_eq!(
        TransmissionClient::session_download_dir(&answer).unwrap_err(),
        CallError::Incomplete
    );
}

#[test]
fn adds_torrents() {
    let call = TransmissionClient::add_request("magnet:?x", "/mnt/downloads/Movie 2026");
    let arguments = call.payload.find("arguments").unwrap();
    assert_eq!(text(&call.payload, "method"), "torrent-add");
    assert_eq!(text(arguments, "filename"), "magnet:?x");
    assert_eq!(text(arguments, "download-dir"), "/mnt/downloads/Movie 2026");

    for (document, added) in [
        ("{\"arguments\": {\"torrent-added\": {}}}", true),
        ("{\"arguments\": {\"torrent-duplicate\": null}}", true),
        ("{\"arguments\": {}}", false),
        ("{}", false),
    ] {
        let answer = read_json(document).unwrap();
        assert_eq!(TransmissionClient::add_torrent(&answer).is_ok(), added, "{document}");
    }
}

#[test]
fn removes_torrents_without_their_files() {
    let call = TransmissionClient::remove_torrent(42);
    let arguments = call.payload.find("arguments").unwrap();
    assert_eq!(call.method, "torrent-remove");
    let ids = arguments.find("ids").unwrap().as_list().unwrap();
    assert!(ids.len() == 1 && ids[0].as_integer() == Some(42));
    assert!(matches!(arguments.find("delete-local-data"), Some(Json::Bool(false))));
}

#[test]
fn lists_completed_torrents() {
    let call = TransmissionClient::completed_request();
    let fields = call.payload.find("arguments").unwrap().find("fields").unwrap();
    let fields: Vec<_> =
        fields.as_list().unwrap().iter().map(|field| field.as_text().unwrap().as_str()).collect();
    assert_eq!(fields, vec!["id", "name", "status", "percentDone", "downloadDir"]);

    let answer = read_json(
        r#"{"arguments": {"torrents": [
            {"id": 1, "name": "A", "status": 6, "percentDone": 1, "downloadDir": "/a"},
            {"id": 2, "name": "B", "status": 4, "percentDone": 0.5, "downloadDir": "/b"},
            {"id": 3, "status": 0, "percentDone": 0.9999995, "downloadDir": "/c"},
            {"name": "D", "status": 6, "downloadDir": "/d"},
            {"id": 5, "name": "E", "status": "seeding"},
            {"id": 6, "name": "F", "status": "stopped", "percentDone": 1.0, "downloadDir": "/f"}
        ]}}"#,
    )
    .unwrap();
    let found: Vec<_> = TransmissionClient::completed_torrents(&answer)
        .unwrap()
        .into_iter()
        .map(|torrent| (torrent.id, torrent.name, torrent.download_dir))
        .collect();
    assert_eq!(
        found,
        vec![
            (1, "A".to_owned(), "/a".to_owned()),
            (3, "completed movie".to_owned(), "/c".to_owned()),
            (6, "F".to_owned(), "/f".to_owned()),
        ]
    );
    let answer = read_json("{\"arguments\": {}}").unwrap();
    assert_eq!(
        TransmissionClient::completed_torrents(&answer).unwrap_err(),
        CallError::Incomplete
    );
}

#[test]
fn torrents_count_as_complete_just_below_one() {
    let share = |value: f64| Json::Double(Binary64 { bits: value.to_bits() });
    let stopped = Json::Integer(0);
    assert!(is_completed_torrent(&stopped, &share(0.999_999)));
    assert!(!is_completed_torrent(&stopped, &share(0.999_998_9)));
    assert!(is_completed_torrent(&stopped, &Json::Integer(1)));
    assert!(!is_completed_torrent(&stopped, &Json::Integer(0)));
    assert!(!is_completed_torrent(&stopped, &Json::Null));
    assert!(is_completed_torrent(&Json::Integer(6), &Json::Null));
    assert!(is_completed_torrent(&Json::Text("seeding".to_owned()), &Json::Null));
    assert!(!is_completed_torrent(&Json::Text("stopped".to_owned()), &share(0.5)));
    assert!(!is_completed_torrent(&Json::Integer(4), &share(1.0)));
}

#[test]
fn reads_every_kind_of_json_value() {
    let json = read_json("[null, true, 5, 2.5, \"x\", {\"b\": 1, \"a\": 2}, 18446744073709551615]");
    let json = json.unwrap();
    let list = json.as_list().unwrap();
    assert!(matches!(list[0], Json::Null));
    assert!(matches!(list[1], Json::Bool(true)));
    assert!(matches!(list[2], Json::Integer(5)));
    assert!(matches!(list[3], Json::Double(number) if number.bits == 2.5f64.to_bits()));
    assert_eq!(list[4].as_text().unwrap(), "x");
    assert_eq!(list[5].integer_of("a"), Some(2));
    assert_eq!(list[5].integer_of("c"), None);
    assert!(matches!(list[6], Json::Double(_)));
    assert!(read_json("[1,]").is_none());
}
