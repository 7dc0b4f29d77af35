use tutu::bot::BotGlobals;
use tutu::web::{handle_http_request, HttpResponse};

fn fresh_globals() -> BotGlobals {
    BotGlobals::new("adm".to_string(), "user".to_string(), "pwd".to_string())
}

#[test]
fn keep_alive_gets_an_empty_response() {
    let mut globals = fresh_globals();
    let r = handle_http_request("Event=KeepAlive", &mut globals);
    assert_eq!(r.status, 200);
    assert_eq!(r.body, "");
}

#[test]
fn unknown_events_get_an_empty_response() {
    let mut globals = fresh_globals();
    let r = handle_http_request("Event=SomethingElse&QQ=adm&Message=count", &mut globals);
    assert_eq!(r.body, "");
}

#[test]
fn a_body_without_an_event_gets_an_empty_response() {
    let mut globals = fresh_globals();
    let r = handle_http_request("QQ=adm&Message=count", &mut globals);
    assert_eq!(r.body, "");
}

#[test]
fn a_private_command_is_answered_on_the_wire() {
    let mut globals = fresh_globals();
    let r = handle_http_request(
        "Event=ReceiveNormalIM&QQ=adm&ExternalId=&RobotQQ=999&Name=tutu&Message=count",
        &mut globals,
    );
    assert_eq!(r.body, "<&&>SendMessage<&>adm<&>count ok: pic=0\r\n");
}

#[test]
fn the_body_is_percent_decoded_before_classification() {
    let mut globals = fresh_globals();
    let r = handle_http_request(
        "Event=ReceiveNormalIM&QQ=adm&ExternalId=&RobotQQ=999&Name=tutu&Message=set%20kitty%20%5B%E5%9B%BE%E7%89%87%3Dcat.png%2F%5D",
        &mut globals,
    );
    assert_eq!(r.body, "<&&>SendMessage<&>adm<&>set ok\r\n");
    let r = handle_http_request(
        "Event=ReceiveNormalIM&QQ=adm&ExternalId=&RobotQQ=999&Name=tutu&Message=kitty",
        &mut globals,
    );
    assert_eq!(r.body, "<&&>SendMessage<&>adm<&>[图片=cat.png/]\r\n");
}

#[test]
fn group_traffic_without_mention_yields_an_empty_body() {
    let mut globals = fresh_globals();
    let r = handle_http_request(
        "Event=ReceiveClusterIM&QQ=7&ExternalId=42&RobotQQ=999&Name=tutu&Message=hello",
        &mut globals,
    );
    assert_eq!(r.body, "");
}

#[test]
fn a_mentioned_group_command_is_answered_to_the_group() {
    let mut globals = fresh_globals();
    handle_http_request(
        "Event=ReceiveNormalIM&QQ=adm&ExternalId=&RobotQQ=999&Name=tutu&Message=set%20pup%20%5B%E5%9B%BE%E7%89%87%3Ddog%2F%5D",
        &mut globals,
    );
    let r = handle_http_request(
        "Event=ReceiveClusterIM&QQ=7&ExternalId=42&RobotQQ=999&Name=tutu&Message=%5B%40999%5D%20pup",
        &mut globals,
    );
    assert_eq!(r.body, "<&&>SendClusterMessage<&>42<&>[图片=dog/]\r\n");
}

#[test]
fn later_duplicate_parameters_win() {
    let mut globals = fresh_globals();
    let r = handle_http_request(
        "Event=ReceiveNormalIM&QQ=7&QQ=adm&ExternalId=&RobotQQ=999&Name=tutu&Message=count",
        &mut globals,
    );
    assert_eq!(r.body, "<&&>SendMessage<&>adm<&>count ok: pic=0\r\n");
}

#[test]
fn http_response_constructors_fill_the_fields() {
    let r = HttpResponse::new("abc".to_string());
    assert_eq!(r.status, 200);
    assert_eq!(r.body, "abc");
    let r = HttpResponse::empty();
    assert_eq!(r.status, 200);
    assert_eq!(r.body, "");
}
