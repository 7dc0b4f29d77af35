use tutu::bot::{parse_cmd, parse_pics, process_request, BotGlobals, BotRequest, BotResponseType};

fn params(message: &str, sender: &str, group: &str) -> Vec<(String, String)> {
    vec![
        ("Message".to_string(), message.to_string()),
        ("QQ".to_string(), sender.to_string()),
        ("ExternalId".to_string(), group.to_string()),
        ("RobotQQ".to_string(), "999".to_string()),
        ("Name".to_string(), "tutu".to_string()),
    ]
}

fn run(message: &str, sender: &str, group: &str, globals: &mut BotGlobals) -> Vec<tutu::bot::BotResponse> {
    let mut req = BotRequest::new(&params(message, sender, group), globals);
    process_request(&mut req, globals)
}

fn fresh_globals() -> BotGlobals {
    BotGlobals::new("adm".to_string(), "user".to_string(), "pwd".to_string())
}

#[test]
fn last_token_wins_and_all_markers_are_stripped() {
    let (pic, text) = parse_pics("[图片=a/]text[图片=b/]more");
    assert_eq!(pic, "b");
    assert_eq!(text, "textmore");
}

#[test]
fn end_marker_before_start_marker_discards_the_rest() {
    let (pic, text) = parse_pics("[图片=a/]zz/]ww[图片=");
    assert_eq!(pic, "a");
    assert_eq!(text, "");
}

#[test]
fn end_marker_first_with_no_prior_token() {
    let (pic, text) = parse_pics("xx/]yy[图片=zz");
    assert_eq!(pic, "");
    assert_eq!(text, "");
}

#[test]
fn text_without_markers_is_untouched() {
    let (pic, text) = parse_pics("plain words only");
    assert_eq!(pic, "");
    assert_eq!(text, "plain words only");
}

#[test]
fn command_splits_at_the_first_space() {
    let (cmd, arg) = parse_cmd("  set  cute cat  ");
    assert_eq!(cmd, "set");
    assert_eq!(arg, "cute cat");
}

#[test]
fn command_without_argument() {
    let (cmd, arg) = parse_cmd(" random ");
    assert_eq!(cmd, "random");
    assert_eq!(arg, "");
}

#[test]
fn group_message_without_mention_is_silent() {
    let mut globals = fresh_globals();
    assert!(run("help", "7", "42", &mut globals).is_empty());
    assert!(run("hello everyone [图片=x/]", "7", "42", &mut globals).is_empty());
    assert!(run("random", "7", "42", &mut globals).is_empty());
}

#[test]
fn private_message_from_non_admin_is_ignored() {
    let mut globals = fresh_globals();
    assert!(run("help", "7", "", &mut globals).is_empty());
    assert!(run("set cute [图片=x/]", "7", "", &mut globals).is_empty());
    assert!(run("whatever", "7", "", &mut globals).is_empty());
}

#[test]
fn the_bot_ignores_its_own_echo() {
    let mut globals = fresh_globals();
    assert!(run("[@999] help", "999", "42", &mut globals).is_empty());
}

#[test]
fn mentioned_help_answers_into_the_group() {
    let mut globals = fresh_globals();
    let resps = run("[@999] help", "7", "42", &mut globals);
    assert_eq!(resps.len(), 1);
    assert_eq!(resps[0].resp_type, BotResponseType::SendClusterMessage);
    assert_eq!(resps[0].target_id, "42");
    assert!(resps[0].text.starts_with("tutu bot v3.0"));
}

#[test]
fn mention_by_name_works_too() {
    let mut globals = fresh_globals();
    let resps = run("@tutu about", "7", "42", &mut globals);
    assert_eq!(resps.len(), 1);
    assert!(resps[0].text.starts_with("about tutu"));
}

#[test]
fn admin_help_is_the_admin_text_sent_privately() {
    let mut globals = fresh_globals();
    let resps = run("help", "adm", "", &mut globals);
    assert_eq!(resps.len(), 1);
    assert_eq!(resps[0].resp_type, BotResponseType::SendMessage);
    assert_eq!(resps[0].target_id, "adm");
    assert!(resps[0].text.starts_with("tutu bot admin commands"));
}

#[test]
fn session_remembers_the_previous_image() {
    let mut globals = fresh_globals();
    assert!(run("[图片=cat.png/]", "7", "42", &mut globals).is_empty());
    let resps = run("[@999] set hello", "8", "42", &mut globals);
    assert_eq!(resps.len(), 1);
    assert_eq!(resps[0].text, "set ok");
    let resps = run("info [图片=cat.png/]", "adm", "", &mut globals);
    assert_eq!(resps[0].text, "info ok: hello");
}

#[test]
fn sessions_are_kept_per_conversation() {
    let mut globals = fresh_globals();
    assert!(run("[图片=a.png/]", "7", "42", &mut globals).is_empty());
    assert!(run("[图片=b.png/]", "7", "43", &mut globals).is_empty());
    let resps = run("[@999] set one", "7", "42", &mut globals);
    assert_eq!(resps[0].text, "set ok");
    let resps = run("info [图片=a.png/]", "adm", "", &mut globals);
    assert_eq!(resps[0].text, "info ok: one");
    let resps = run("info [图片=b.png/]", "adm", "", &mut globals);
    assert_eq!(resps[0].text, "info fail: no such pic");
}

#[test]
fn set_without_any_image_fails() {
    let mut globals = fresh_globals();
    let resps = run("set cute", "adm", "", &mut globals);
    assert_eq!(resps[0].text, "set fail: no pic");
}

#[test]
fn set_without_text_fails() {
    let mut globals = fresh_globals();
    let resps = run("set [图片=x/]", "adm", "", &mut globals);
    assert_eq!(resps[0].text, "set fail: no text");
}

#[test]
fn an_empty_private_message_asks_for_query_text() {
    let mut globals = fresh_globals();
    let resps = run("", "adm", "", &mut globals);
    assert_eq!(resps.len(), 1);
    assert_eq!(resps[0].text, "query fail: no text");
}

#[test]
fn admin_commands_are_not_recognised_in_groups() {
    let mut globals = fresh_globals();
    let resps = run("[@999] count", "7", "42", &mut globals);
    assert_eq!(resps.len(), 1);
    assert_eq!(resps[0].text, "query fail: not found");
}

#[test]
fn unknown_word_query_reports_not_found() {
    let mut globals = fresh_globals();
    let resps = run("findme", "adm", "", &mut globals);
    assert_eq!(resps.len(), 1);
    assert_eq!(resps[0].text, "query fail: not found");
}

#[test]
fn query_returns_the_tagged_picture_framed() {
    let mut globals = fresh_globals();
    assert_eq!(run("set cute [图片=cat/]", "adm", "", &mut globals)[0].text, "set ok");
    let resps = run("cute", "adm", "", &mut globals);
    assert_eq!(resps.len(), 1);
    assert_eq!(resps[0].text, "[图片=cat/]");
}

#[test]
fn query_with_two_matches_sends_two_directives() {
    let mut globals = fresh_globals();
    run("set cute [图片=cat/]", "adm", "", &mut globals);
    run("set cute [图片=dog/]", "adm", "", &mut globals);
    let resps = run("cute", "adm", "", &mut globals);
    assert_eq!(resps.len(), 2);
    assert_eq!(resps[0].text, "[图片=dog/]");
    assert_eq!(resps[1].text, "[图片=cat/]");
}

#[test]
fn random_on_an_empty_corpus_fails() {
    let mut globals = fresh_globals();
    let resps = run("random", "adm", "", &mut globals);
    assert_eq!(resps[0].text, "random fail: db empty");
}

#[test]
fn random_returns_a_framed_picture() {
    let mut globals = fresh_globals();
    run("set cute [图片=cat/]", "adm", "", &mut globals);
    let resps = run("random", "adm", "", &mut globals);
    assert_eq!(resps[0].text, "[图片=cat/]");
}

#[test]
fn delete_without_image_fails() {
    let mut globals = fresh_globals();
    let resps = run("delete", "adm", "", &mut globals);
    assert_eq!(resps[0].text, "delete fail: no pic");
}

#[test]
fn delete_then_query_finds_nothing() {
    let mut globals = fresh_globals();
    run("set cute [图片=cat/]", "adm", "", &mut globals);
    let resps = run("delete [图片=cat/]", "adm", "", &mut globals);
    assert_eq!(resps[0].text, "delete ok");
    let resps = run("cute", "adm", "", &mut globals);
    assert_eq!(resps[0].text, "query fail: not found");
}

#[test]
fn replace_requires_image_and_text() {
    let mut globals = fresh_globals();
    assert_eq!(run("replace", "adm", "", &mut globals)[0].text, "replace fail: no pic");
    assert_eq!(
        run("replace [图片=cat/]", "adm", "", &mut globals)[0].text,
        "replace fail: no text"
    );
}

#[test]
fn replace_overwrites_the_tags() {
    let mut globals = fresh_globals();
    run("set cute [图片=cat/]", "adm", "", &mut globals);
    let resps = run("replace fluffy [图片=cat/]", "adm", "", &mut globals);
    assert_eq!(resps[0].text, "replace ok");
    assert_eq!(run("info [图片=cat/]", "adm", "", &mut globals)[0].text, "info ok: fluffy");
    assert_eq!(run("cute", "adm", "", &mut globals)[0].text, "query fail: not found");
}

#[test]
fn info_without_image_fails() {
    let mut globals = fresh_globals();
    assert_eq!(run("info", "adm", "", &mut globals)[0].text, "info fail: no pic");
}

#[test]
fn count_reports_the_exact_number() {
    let mut globals = fresh_globals();
    assert_eq!(run("count", "adm", "", &mut globals)[0].text, "count ok: pic=0");
    run("set a [图片=p1/]", "adm", "", &mut globals);
    run("set b [图片=p2/]", "adm", "", &mut globals);
    assert_eq!(run("count", "adm", "", &mut globals)[0].text, "count ok: pic=2");
}

#[test]
fn clean_reports_how_many_orphans_went() {
    let mut globals = fresh_globals();
    run("set a [图片=p1/]", "adm", "", &mut globals);
    run("set b [图片=p2/]", "adm", "", &mut globals);
    run("delete [图片=p2/]", "adm", "", &mut globals);
    assert_eq!(run("clean", "adm", "", &mut globals)[0].text, "clean ok: 1");
    assert_eq!(run("count", "adm", "", &mut globals)[0].text, "count ok: pic=1");
}

#[test]
fn an_unrecognised_keyword_with_an_image_records_it() {
    let mut globals = fresh_globals();
    assert!(run("look [图片=new.png/]", "adm", "", &mut globals).is_empty());
    assert_eq!(run("set tag", "adm", "", &mut globals)[0].text, "set ok");
    assert_eq!(run("info [图片=new.png/]", "adm", "", &mut globals)[0].text, "info ok: tag");
}
