//! The message classifier and command dispatcher.
//!
//! A raw inbound parameter list is classified into a typed request
//! ([`BotRequest`]); [`process_request`] then runs the request against the
//! per-conversation sessions and the association store, producing the
//! outbound directives.

use vstd::prelude::*;

use crate::db::{
    append_spec, append_word, clean, count_pic, delete_pic, delete_spec, empty_store, list_pic_words,
    live_pics, pics_of, query_pic, random_pic, replace_word, store_wf, words_of, DbInfo,
    StoreModel,
};
use crate::text::{
    contains_str, dec_str, find_first, find_str, join_sp, lemma_find_first, match_at, remove_all,
    remove_all_str, split_ws, str_eq, trim_spec, trim_str, u64_to_string,
};

verus! {

/// The marker that opens an embedded image token in a message body.
pub open spec fn pic_start() -> Seq<char> {
    "[图片="@
}

/// The marker that closes an embedded image token.
pub open spec fn pic_end() -> Seq<char> {
    "/]"@
}

/// The markers have the lengths the parser counts on.
pub proof fn lemma_marker_lens()
    ensures
        pic_start().len() == 4,
        pic_end().len() == 2,
{
    reveal_strlit("[图片=");
    reveal_strlit("/]");
}

/// One extraction step is possible only while both markers occur.  Scanning
/// left to right: the text between the first start marker and the first end
/// marker becomes the image token (overwriting an earlier one) and the
/// matched span is cut out; when the first end marker sits before the first
/// start marker, the token found so far is kept and the rest of the text is
/// discarded.  The second component of the result is the remaining text.
pub open spec fn extract_pics(text: Seq<char>, img: Seq<char>) -> (Seq<char>, Seq<char>)
    decreases text.len(),
    via extract_pics_dec
{
    let fs = find_first(text, pic_start());
    let fe = find_first(text, pic_end());
    if fs is Some && fe is Some {
        let s = fs->0;
        let e = fe->0;
        if e < s {
            (img, Seq::empty())
        } else {
            extract_pics(text.subrange(0, s) + text.skip(e + 2), text.subrange(s + 4, e))
        }
    } else {
        (img, text)
    }
}

#[via_fn]
proof fn extract_pics_dec(text: Seq<char>, img: Seq<char>) {
    lemma_marker_lens();
    lemma_find_first(text, pic_start());
    lemma_find_first(text, pic_end());
}

/// The first end marker never falls inside or before the end of a start
/// marker that begins at or before it.
proof fn lemma_markers_apart(text: Seq<char>, s: int, e: int)
    requires
        match_at(text, pic_start(), s),
        match_at(text, pic_end(), e),
        s <= e,
    ensures
        s + 4 <= e,
{
    lemma_marker_lens();
    reveal_strlit("[图片=");
    reveal_strlit("/]");
    if e < s + 4 {
        assert(text.subrange(e, e + 2)[0] == text[e]);
        assert(text[e] == '/');
        assert(text.subrange(s, s + 4)[e - s] == text[e]);
        assert(pic_start()[e - s] != '/');
        assert(false);
    }
}

/// Extracts the image token of `message` and strips every well-formed
/// marker pair from it; the token of the last pair wins.
pub fn parse_pics(message: &str) -> (r: (String, String))
    ensures
        r.0@ == extract_pics(message@, Seq::empty()).0,
        r.1@ == extract_pics(message@, Seq::empty()).1,
{
    let mut image = String::new();
    let mut text = message.to_owned();
    loop
        invariant
            extract_pics(message@, Seq::empty()) == extract_pics(text@, image@),
        decreases text@.len(),
    {
        let n = text.as_str().unicode_len();
        let fs = find_str(text.as_str(), "[图片=");
        let fe = find_str(text.as_str(), "/]");
        if fs.is_none() || fe.is_none() {
            return (image, text);
        }
        let s = fs.unwrap();
        let e = fe.unwrap();
        if e < s {
            let empty = String::new();
            return (image, empty);
        }
        proof {
            lemma_marker_lens();
            lemma_find_first(text@, pic_start());
            lemma_find_first(text@, pic_end());
            lemma_markers_apart(text@, s as int, e as int);
        }
        let img2 = text.as_str().substring_char(s + 4, e).to_owned();
        let rest = text.as_str().substring_char(0, s).to_owned().concat(
            text.as_str().substring_char(e + 2, n),
        );
        proof {
            assert(rest@ =~= text@.subrange(0, s as int) + text@.skip(e + 2));
        }
        image = img2;
        text = rest;
    }
}

/// Splits the already de-tokenised text into the command keyword and the
/// argument: the trimmed text up to its first space, and what follows that
/// space, trimmed again.
pub open spec fn parse_cmd_spec(text: Seq<char>) -> (Seq<char>, Seq<char>) {
    let t = trim_spec(text);
    let p = find_first(t, seq![' ']);
    if p is Some {
        (t.take(p->0), trim_spec(t.skip(p->0 + 1)))
    } else {
        (t, Seq::empty())
    }
}

/// Splits `text` into the command keyword and the argument text.
pub fn parse_cmd(text: &str) -> (r: (String, String))
    ensures
        r.0@ == parse_cmd_spec(text@).0,
        r.1@ == parse_cmd_spec(text@).1,
{
    let t = trim_str(text);
    let n = t.unicode_len();
    proof {
        reveal_strlit(" ");
        assert(" "@ =~= seq![' ']);
    }
    match find_str(t, " ") {
        None => (t.to_owned(), String::new()),
        Some(p) => {
            proof {
                lemma_find_first(t@, " "@);
            }
            let cmd = t.substring_char(0, p).to_owned();
            let arg = trim_str(t.substring_char(p + 1, n)).to_owned();
            proof {
                assert(t@.take(p as int) =~= t@.subrange(0, p as int));
                assert(t@.skip(p + 1) =~= t@.subrange(p + 1, n as int));
            }
            (cmd, arg)
        },
    }
}

/// The value of the last pair of `ps` carrying key `k`, or the empty string:
/// what a map built by inserting the pairs in order would hold at `k`.
pub open spec fn lookup_param(ps: Seq<(Seq<char>, Seq<char>)>, k: Seq<char>) -> Seq<char>
    decreases ps.len(),
{
    if ps.len() == 0 {
        Seq::empty()
    } else if ps.last().0 == k {
        ps.last().1
    } else {
        lookup_param(ps.drop_last(), k)
    }
}

/// Looks `k` up among the decoded parameter pairs.
pub fn lookup_pairs(ps: &Vec<(String, String)>, k: &str) -> (r: String)
    ensures
        r@ == lookup_param(ps.deep_view(), k@),
{
    let ghost dv = ps.deep_view();
    proof {
        assert(dv.take(ps@.len() as int) =~= dv);
    }
    let mut i: usize = ps.len();
    while i > 0
        invariant
            i <= ps@.len(),
            dv == ps.deep_view(),
            lookup_param(dv, k@) == lookup_param(dv.take(i as int), k@),
        decreases i,
    {
        i -= 1;
        proof {
            assert(dv.take(i + 1).drop_last() =~= dv.take(i as int));
            assert(dv.take(i + 1).last() == dv[i as int]);
        }
        if str_eq(ps[i].0.as_str(), k) {
            return ps[i].1.clone();
        }
    }
    proof {
        assert(dv.take(0) =~= Seq::<(Seq<char>, Seq<char>)>::empty());
    }
    String::new()
}

/// The command a message was routed to.
#[derive(Clone, Copy, PartialEq, Eq, Debug)]
pub enum BotRequestType {
    Ignore,
    Help,
    HelpAdmin,
    About,
    RecordPrevImg,
    SetWord,
    Query,
    Random,
    Delete,
    Replace,
    Info,
    Count,
    Clean,
}

/// The abstract content of a classified request.
#[verifier::ext_equal]
pub ghost struct ReqModel {
    pub req_type: BotRequestType,
    pub sender_id: Seq<char>,
    pub group_id: Seq<char>,
    pub is_in_group: bool,
    pub word: Seq<char>,
    pub pic: Seq<char>,
}

/// A classified inbound message.
pub struct BotRequest {
    req_type: BotRequestType,
    sender_id: String,
    group_id: String,
    is_in_group: bool,
    word: String,
    pic: String,
}

impl View for BotRequest {
    type V = ReqModel;

    closed spec fn view(&self) -> ReqModel {
        ReqModel {
            req_type: self.req_type,
            sender_id: self.sender_id@,
            group_id: self.group_id@,
            is_in_group: self.is_in_group,
            word: self.word@,
            pic: self.pic@,
        }
    }
}

/// The request a dropped message classifies to.
pub open spec fn empty_req() -> ReqModel {
    ReqModel {
        req_type: BotRequestType::Ignore,
        sender_id: Seq::empty(),
        group_id: Seq::empty(),
        is_in_group: false,
        word: Seq::empty(),
        pic: Seq::empty(),
    }
}

/// Per-conversation state and the store, keyed configuration included.
///
/// Sessions are created lazily on a conversation's first message and live
/// for the process lifetime: there is no eviction, so the session list
/// grows with the number of distinct conversations seen.
pub struct BotGlobals {
    admin_id: String,
    sessions: Vec<(String, String)>,
    db: DbInfo,
}

/// The abstract state behind [`BotGlobals`]: the admin identity, the
/// sessions as (conversation key, last image token) pairs in creation
/// order, and the association store.
#[verifier::ext_equal]
pub ghost struct GlobalsModel {
    pub admin_id: Seq<char>,
    pub sessions: Seq<(Seq<char>, Seq<char>)>,
    pub store: StoreModel,
}

impl View for BotGlobals {
    type V = GlobalsModel;

    closed spec fn view(&self) -> GlobalsModel {
        GlobalsModel {
            admin_id: self.admin_id@,
            sessions: self.sessions.deep_view(),
            store: self.db@,
        }
    }
}

/// Conversation keys are unique.
pub open spec fn sessions_wf(ss: Seq<(Seq<char>, Seq<char>)>) -> bool {
    forall|i: int, j: int| 0 <= i < j < ss.len() ==> ss[i].0 != ss[j].0
}

impl BotGlobals {
    /// The store invariant and the session-key uniqueness hold.
    pub open spec fn wf(&self) -> bool {
        store_wf(self@.store) && sessions_wf(self@.sessions)
    }

    /// Fresh global state: no sessions, an empty store.
    pub fn new(admin_id: String, db_user: String, db_pwd: String) -> (r: BotGlobals)
        ensures
            r.wf(),
            r@.admin_id == admin_id@,
            r@.sessions == Seq::<(Seq<char>, Seq<char>)>::empty(),
            r@.store == empty_store(),
    {
        let r = BotGlobals {
            admin_id,
            sessions: Vec::new(),
            db: DbInfo::new(db_user.as_str(), db_pwd.as_str()),
        };
        proof {
            assert(r@.sessions =~= Seq::<(Seq<char>, Seq<char>)>::empty());
        }
        r
    }
}

/// The group-mention marker built from the bot's numeric identity.
pub open spec fn mention_id_marker(id: Seq<char>) -> Seq<char> {
    "[@"@ + id + "] "@
}

/// The group-mention marker built from the bot's display name.
pub open spec fn mention_name_marker(name: Seq<char>) -> Seq<char> {
    "@"@ + name + " "@
}

/// Routing for a group message that mentions the bot.
pub open spec fn route_group(
    cmd: Seq<char>,
    arg: Seq<char>,
    pic: Seq<char>,
    sender: Seq<char>,
    group: Seq<char>,
) -> ReqModel {
    let t = if cmd == "help"@ {
        BotRequestType::Help
    } else if cmd == "about"@ {
        BotRequestType::About
    } else if cmd == "set"@ {
        BotRequestType::SetWord
    } else if cmd == "random"@ {
        BotRequestType::Random
    } else if pic.len() == 0 {
        BotRequestType::Query
    } else {
        BotRequestType::RecordPrevImg
    };
    let w = if t is Query {
        cmd
    } else {
        arg
    };
    ReqModel {
        req_type: t,
        sender_id: sender,
        group_id: group,
        is_in_group: true,
        word: w,
        pic: pic,
    }
}

/// Routing for a private message from the admin.
pub open spec fn route_private(
    cmd: Seq<char>,
    arg: Seq<char>,
    pic: Seq<char>,
    sender: Seq<char>,
    group: Seq<char>,
) -> ReqModel {
    let t = if cmd == "help"@ {
        BotRequestType::HelpAdmin
    } else if cmd == "about"@ {
        BotRequestType::About
    } else if cmd == "set"@ {
        BotRequestType::SetWord
    } else if cmd == "random"@ {
        BotRequestType::Random
    } else if cmd == "delete"@ {
        BotRequestType::Delete
    } else if cmd == "replace"@ {
        BotRequestType::Replace
    } else if cmd == "info"@ {
        BotRequestType::Info
    } else if cmd == "count"@ {
        BotRequestType::Count
    } else if cmd == "clean"@ {
        BotRequestType::Clean
    } else if pic.len() == 0 {
        BotRequestType::Query
    } else {
        BotRequestType::RecordPrevImg
    };
    let w = if t is Query {
        cmd
    } else {
        arg
    };
    ReqModel {
        req_type: t,
        sender_id: sender,
        group_id: group,
        is_in_group: false,
        word: w,
        pic: pic,
    }
}

/// The whole classification pipeline, from the decoded parameter pairs and
/// the admin identity to the typed request.
pub open spec fn classify(ps: Seq<(Seq<char>, Seq<char>)>, admin: Seq<char>) -> ReqModel {
    let msg0 = lookup_param(ps, "Message"@);
    let sender = lookup_param(ps, "QQ"@);
    let group = lookup_param(ps, "ExternalId"@);
    let self_id = lookup_param(ps, "RobotQQ"@);
    let self_name = lookup_param(ps, "Name"@);
    if self_id == sender {
        empty_req()
    } else {
        let in_group = group.len() > 0;
        let m1 = mention_id_marker(self_id);
        let m2 = mention_name_marker(self_name);
        let mentioned = in_group && (find_first(msg0, m1) is Some || find_first(msg0, m2)
            is Some);
        let msg = if mentioned {
            remove_all(remove_all(msg0, m1), m2)
        } else {
            msg0
        };
        let pt = extract_pics(msg, Seq::empty());
        let ca = parse_cmd_spec(pt.1);
        if in_group {
            if mentioned {
                route_group(ca.0, ca.1, pt.0, sender, group)
            } else {
                ReqModel {
                    req_type: BotRequestType::RecordPrevImg,
                    sender_id: sender,
                    group_id: group,
                    is_in_group: true,
                    word: ca.1,
                    pic: pt.0,
                }
            }
        } else {
            if sender == admin {
                route_private(ca.0, ca.1, pt.0, sender, group)
            } else {
                empty_req()
            }
        }
    }
}

impl BotRequest {
    /// Classifies a decoded parameter list.
    pub fn new(params: &Vec<(String, String)>, globals: &BotGlobals) -> (r: BotRequest)
        ensures
            r@ == classify(params.deep_view(), globals@.admin_id),
    {
        let message = lookup_pairs(params, "Message");
        let sender_id = lookup_pairs(params, "QQ");
        let group_id = lookup_pairs(params, "ExternalId");
        let bot_self_id = lookup_pairs(params, "RobotQQ");
        let bot_self_name = lookup_pairs(params, "Name");

        if str_eq(bot_self_id.as_str(), sender_id.as_str()) {
            return BotRequest::empty();
        }
        let is_in_group = !group_id.as_str().is_empty();
        let mut mentioned = false;
        let mut msg = message;
        if is_in_group {
            let m1 = String::from_str("[@").concat(bot_self_id.as_str()).concat("] ");
            let m2 = String::from_str("@").concat(bot_self_name.as_str()).concat(" ");
            if contains_str(msg.as_str(), m1.as_str()) || contains_str(
                msg.as_str(),
                m2.as_str(),
            ) {
                mentioned = true;
                let msg1 = remove_all_str(msg.as_str(), m1.as_str());
                msg = remove_all_str(msg1.as_str(), m2.as_str());
            }
        }
        let pt = parse_pics(msg.as_str());
        let pic = pt.0;
        let ca = parse_cmd(pt.1.as_str());
        let cmd = ca.0;
        let mut word = ca.1;

        let req_type = if is_in_group {
            if mentioned {
                if str_eq(cmd.as_str(), "help") {
                    BotRequestType::Help
                } else if str_eq(cmd.as_str(), "about") {
                    BotRequestType::About
                } else if str_eq(cmd.as_str(), "set") {
                    BotRequestType::SetWord
                } else if str_eq(cmd.as_str(), "random") {
                    BotRequestType::Random
                } else if pic.as_str().is_empty() {
                    word = cmd;
                    BotRequestType::Query
                } else {
                    BotRequestType::RecordPrevImg
                }
            } else {
                BotRequestType::RecordPrevImg
            }
        } else {
            if str_eq(sender_id.as_str(), globals.admin_id.as_str()) {
                if str_eq(cmd.as_str(), "help") {
                    BotRequestType::HelpAdmin
                } else if str_eq(cmd.as_str(), "about") {
                    BotRequestType::About
                } else if str_eq(cmd.as_str(), "set") {
                    BotRequestType::SetWord
                } else if str_eq(cmd.as_str(), "random") {
                    BotRequestType::Random
                } else if str_eq(cmd.as_str(), "delete") {
                    BotRequestType::Delete
                } else if str_eq(cmd.as_str(), "replace") {
                    BotRequestType::Replace
                } else if str_eq(cmd.as_str(), "info") {
                    BotRequestType::Info
                } else if str_eq(cmd.as_str(), "count") {
                    BotRequestType::Count
                } else if str_eq(cmd.as_str(), "clean") {
                    BotRequestType::Clean
                } else if pic.as_str().is_empty() {
                    word = cmd;
                    BotRequestType::Query
                } else {
                    BotRequestType::RecordPrevImg
                }
            } else {
                return BotRequest::empty();
            }
        };

        let r = BotRequest { req_type, sender_id, group_id, is_in_group, word, pic };
        proof {
            assert(r@ =~~= classify(params.deep_view(), globals@.admin_id));
        }
        r
    }

    /// The request a dropped message classifies to.
    pub fn empty() -> (r: BotRequest)
        ensures
            r@ == empty_req(),
    {
        let r = BotRequest {
            req_type: BotRequestType::Ignore,
            sender_id: String::new(),
            group_id: String::new(),
            is_in_group: false,
            word: String::new(),
            pic: String::new(),
        };
        proof {
            assert(r@ =~~= empty_req());
        }
        r
    }
}

/// How an outbound directive is addressed.
#[derive(Clone, Copy, PartialEq, Eq, Debug)]
pub enum BotResponseType {
    SendMessage,
    SendClusterMessage,
}

/// The abstract content of an outbound directive.
#[verifier::ext_equal]
pub ghost struct RespModel {
    pub resp_type: BotResponseType,
    pub target_id: Seq<char>,
    pub text: Seq<char>,
}

/// One outbound directive: a message to a group or to a single user.
pub struct BotResponse {
    pub resp_type: BotResponseType,
    pub target_id: String,
    pub text: String,
}

impl View for BotResponse {
    type V = RespModel;

    open spec fn view(&self) -> RespModel {
        RespModel { resp_type: self.resp_type, target_id: self.target_id@, text: self.text@ }
    }
}

impl DeepView for BotResponse {
    type V = RespModel;

    open spec fn deep_view(&self) -> RespModel {
        self.view()
    }
}

/// The directive `text` produces for `req`: addressed to the group the
/// message came from, or back to its sender.
pub open spec fn resp_of(req: ReqModel, text: Seq<char>) -> RespModel {
    if req.is_in_group {
        RespModel {
            resp_type: BotResponseType::SendClusterMessage,
            target_id: req.group_id,
            text: text,
        }
    } else {
        RespModel { resp_type: BotResponseType::SendMessage, target_id: req.sender_id, text: text }
    }
}

impl BotResponse {
    /// Addresses `text` for `req`.
    pub fn new(text: String, req: &BotRequest) -> (r: BotResponse)
        ensures
            r@ == resp_of(req@, text@),
    {
        if req.is_in_group {
            BotResponse {
                resp_type: BotResponseType::SendClusterMessage,
                target_id: req.group_id.clone(),
                text,
            }
        } else {
            BotResponse {
                resp_type: BotResponseType::SendMessage,
                target_id: req.sender_id.clone(),
                text,
            }
        }
    }

    /// A single directive carrying `text`.
    pub fn simple(text: String, req: &BotRequest) -> (r: Vec<BotResponse>)
        ensures
            r.deep_view() == seq![resp_of(req@, text@)],
    {
        let mut v: Vec<BotResponse> = Vec::new();
        v.push(BotResponse::new(text, req));
        proof {
            assert(v.deep_view() =~= seq![resp_of(req@, v@[0].text@)]);
        }
        v
    }
}

/// The conversation a request belongs to: the group when it came from a
/// group, else the sender.
pub open spec fn session_key(r: ReqModel) -> Seq<char> {
    if r.is_in_group {
        "g"@ + r.group_id
    } else {
        r.sender_id
    }
}

/// Some session carries key `k`.
pub open spec fn has_session(ss: Seq<(Seq<char>, Seq<char>)>, k: Seq<char>) -> bool {
    exists|i: int| 0 <= i < ss.len() && ss[i].0 == k
}

/// `ss` with a session for `k`, created empty if absent.
pub open spec fn ensure_session(ss: Seq<(Seq<char>, Seq<char>)>, k: Seq<char>) -> Seq<
    (Seq<char>, Seq<char>),
> {
    if has_session(ss, k) {
        ss
    } else {
        ss.push((k, Seq::empty()))
    }
}

/// `ss` with the session of `k` now holding `v`.
pub open spec fn set_session(ss: Seq<(Seq<char>, Seq<char>)>, k: Seq<char>, v: Seq<char>) -> Seq<
    (Seq<char>, Seq<char>),
> {
    ss.map_values(
        |p: (Seq<char>, Seq<char>)|
            if p.0 == k {
                (p.0, v)
            } else {
                p
            },
    )
}

/// With unique keys, the looked-up value is the one stored at the key's
/// position.
proof fn lemma_lookup_at(ss: Seq<(Seq<char>, Seq<char>)>, idx: int, k: Seq<char>)
    requires
        sessions_wf(ss),
        0 <= idx < ss.len(),
        ss[idx].0 == k,
    ensures
        lookup_param(ss, k) == ss[idx].1,
    decreases ss.len(),
{
    if idx == ss.len() - 1 {
    } else {
        assert(ss.last().0 != k);
        assert(ss.drop_last()[idx] == ss[idx]);
        lemma_lookup_at(ss.drop_last(), idx, k);
    }
}

/// Finds the session of key `k`, if one exists.
fn find_session(ss: &Vec<(String, String)>, k: &str) -> (r: Option<usize>)
    ensures
        match r {
            Some(i) => i < ss@.len() && ss.deep_view()[i as int].0 == k@,
            None => !has_session(ss.deep_view(), k@),
        },
{
    let ghost dv = ss.deep_view();
    let mut i: usize = 0;
    while i < ss.len()
        invariant
            i <= ss@.len(),
            dv == ss.deep_view(),
            forall|t: int| 0 <= t < i ==> dv[t].0 != k@,
        decreases ss@.len() - i,
    {
        if str_eq(ss[i].0.as_str(), k) {
            return Some(i);
        }
        i += 1;
    }
    None
}

/// The help text shown on the public `help` command.
pub open spec fn help_text() -> Seq<char> {
    "tutu bot v3.0
=============
* help
  显示本说明
* 直接发文字
  查询包含指定文字的图片
* set 字符串
  设置前一张图片对应的文字
* set [图片] 字符串 或 set 字符串 [图片]
  设置指定图片对应的文字
* random
  随机输出一张图片
* about
  显示版本说明
 "@
}

/// The help text shown to the admin.
pub open spec fn help_admin_text() -> Seq<char> {
    "tutu bot admin commands
=======================
* help
  显示本说明
* 直接发文字
  查询包含指定文字的图片
* set 字符串
  设置前一张图片对应的文字
* set [图片] 字符串 或 set 字符串 [图片]
  设置指定图片对应的文字
* random
  随机输出一张图片
* about
  显示版本说明

* replace
  替换一张图片对应的文字（set命令是追加）
* delete [图片]
  从数据库中删除指定的图片信息
* info [图片]
  查询一张图片下挂的所有词
* count
  查询现存的图片总数
* clean
  删除掉没有被引用的图片文件
 "@
}

/// The version text shown on `about`.
pub open spec fn about_text() -> Seq<char> {
    "about tutu
==========
2018-09-23 v3.0 rust
2017-08-13 v2.0 spring-boot
2017-05-21 v1.0 python
 "@
}

fn handle_help() -> (r: String)
    ensures
        r@ == help_text(),
{
    String::from_str(
        "tutu bot v3.0
=============
* help
  显示本说明
* 直接发文字
  查询包含指定文字的图片
* set 字符串
  设置前一张图片对应的文字
* set [图片] 字符串 或 set 字符串 [图片]
  设置指定图片对应的文字
* random
  随机输出一张图片
* about
  显示版本说明
 ",
    )
}

fn handle_help_admin() -> (r: String)
    ensures
        r@ == help_admin_text(),
{
    String::from_str(
        "tutu bot admin commands
=======================
* help
  显示本说明
* 直接发文字
  查询包含指定文字的图片
* set 字符串
  设置前一张图片对应的文字
* set [图片] 字符串 或 set 字符串 [图片]
  设置指定图片对应的文字
* random
  随机输出一张图片
* about
  显示版本说明

* replace
  替换一张图片对应的文字（set命令是追加）
* delete [图片]
  从数据库中删除指定的图片信息
* info [图片]
  查询一张图片下挂的所有词
* count
  查询现存的图片总数
* clean
  删除掉没有被引用的图片文件
 ",
    )
}

fn handle_about() -> (r: String)
    ensures
        r@ == about_text(),
{
    String::from_str(
        "about tutu
==========
2018-09-23 v3.0 rust
2017-08-13 v2.0 spring-boot
2017-05-21 v1.0 python
 ",
    )
}

/// An image token framed the way the platform renders it.
pub open spec fn wrap_pic(p: Seq<char>) -> Seq<char> {
    pic_start() + p + pic_end()
}

fn build_pic_output(pic: &str) -> (r: String)
    ensures
        r@ == wrap_pic(pic@),
{
    String::from_str("[图片=").concat(pic).concat("/]")
}

fn handle_record_prev_img(req: &BotRequest, sessions: &mut Vec<(String, String)>, idx: usize) -> (r:
    Vec<BotResponse>)
    requires
        idx < old(sessions)@.len(),
    ensures
        r.deep_view() == Seq::<RespModel>::empty(),
        req@.pic.len() > 0 ==> final (sessions).deep_view() == old(sessions).deep_view().update(
            idx as int,
            (old(sessions).deep_view()[idx as int].0, req@.pic),
        ),
        req@.pic.len() == 0 ==> final (sessions)@ == old(sessions)@,
{
    let r: Vec<BotResponse> = Vec::new();
    proof {
        assert(r.deep_view() =~= Seq::<RespModel>::empty());
    }
    if !req.pic.as_str().is_empty() {
        let ghost dv0 = sessions.deep_view();
        let key = sessions[idx].0.clone();
        sessions[idx] = (key, req.pic.clone());
        proof {
            assert(sessions.deep_view() =~= dv0.update(idx as int, (dv0[idx as int].0, req@.pic)));
        }
    }
    r
}

fn handle_set(req: &BotRequest, db: &mut DbInfo) -> (r: String)
    requires
        old(db).wf(),
    ensures
        final (db).wf(),
        req@.pic.len() == 0 ==> final (db)@ == old(db)@ && r@ == "set fail: no pic"@,
        req@.pic.len() > 0 && req@.word.len() == 0 ==> final (db)@ == old(db)@ && r@
            == "set fail: no text"@,
        req@.pic.len() > 0 && req@.word.len() > 0 ==> final (db)@ == append_spec(
            old(db)@,
            req@.pic,
            split_ws(req@.word),
        ) && r@ == "set ok"@,
{
    if req.pic.as_str().is_empty() {
        return String::from_str("set fail: no pic");
    }
    if req.word.as_str().is_empty() {
        return String::from_str("set fail: no text");
    }
    let result = append_word(req.pic.as_str(), req.word.as_str(), db);
    match result {
        Ok(_) => String::from_str("set ok"),
        Err(t) => String::from_str("set fail: ").concat(t.as_str()),
    }
}

fn handle_query(req: &BotRequest, db: &mut DbInfo) -> (r: Vec<BotResponse>)
    requires
        old(db).wf(),
    ensures
        final (db).wf(),
        final (db)@ == old(db)@,
        query_resps_post(req@, old(db)@, r.deep_view()),
{
    if req.word.as_str().is_empty() {
        return BotResponse::simple(String::from_str("query fail: no text"), req);
    }
    let result = query_pic(req.word.as_str(), db);
    match result {
        Ok(t) => {
            if t.len() == 0 {
                BotResponse::simple(String::from_str("query fail: not found"), req)
            } else {
                let ghost cands = pics_of(old(db)@.assocs, req@.word);
                let ghost v = t.deep_view();
                let mut out: Vec<BotResponse> = Vec::new();
                let mut i: usize = 0;
                while i < t.len()
                    invariant
                        i <= t@.len(),
                        v == t.deep_view(),
                        out.deep_view().len() == i,
                        forall|u: int|
                            0 <= u < i ==> out.deep_view()[u] == resp_of(req@, wrap_pic(v[u])),
                    decreases t@.len() - i,
                {
                    let ghost ov = out.deep_view();
                    out.push(BotResponse::new(build_pic_output(t[i].as_str()), req));
                    proof {
                        assert(out.deep_view() =~= ov.push(resp_of(req@, wrap_pic(v[i as int]))));
                    }
                    i += 1;
                }
                proof {
                    let rs = out.deep_view();
                    if cands.len() == 1 {
                        assert(rs =~= seq![resp_of(req@, wrap_pic(cands.last()))]);
                    } else {
                        assert(cands.len() >= 2);
                        assert(rs[0] == resp_of(req@, wrap_pic(cands.last())));
                        assert(cands.contains(v[1]) && v[1] != cands.last() && rs[1] == resp_of(
                            req@,
                            wrap_pic(v[1]),
                        ));
                    }
                }
                out
            }
        },
        Err(t) => BotResponse::simple(String::from_str("query fail: ").concat(t.as_str()), req),
    }
}

/// What the query handler promises of its directives `rs`.
pub open spec fn query_resps_post(req: ReqModel, m: StoreModel, rs: Seq<RespModel>) -> bool {
    if req.word.len() == 0 {
        rs == seq![resp_of(req, "query fail: no text"@)]
    } else {
        let cands = pics_of(m.assocs, req.word);
        if cands.len() == 0 {
            rs == seq![resp_of(req, "query fail: not found"@)]
        } else if cands.len() == 1 {
            rs == seq![resp_of(req, wrap_pic(cands.last()))]
        } else {
            rs.len() == 2 && rs[0] == resp_of(req, wrap_pic(cands.last())) && exists|p: Seq<char>|
                cands.contains(p) && p != cands.last() && rs[1] == resp_of(req, wrap_pic(p))
        }
    }
}

fn handle_random(req: &BotRequest, db: &mut DbInfo) -> (r: String)
    requires
        old(db).wf(),
    ensures
        final (db).wf(),
        final (db)@ == old(db)@,
        old(db)@.pics.len() == 0 ==> r@ == "random fail: db empty"@,
        old(db)@.pics.len() > 0 ==> exists|p: Seq<char>|
            old(db)@.pics.contains(p) && r@ == (if p.len() == 0 {
                "random fail: db empty"@
            } else {
                wrap_pic(p)
            }),
{
    let result = random_pic(db);
    match result {
        Ok(t) => {
            if t.as_str().is_empty() {
                String::from_str("random fail: db empty")
            } else {
                build_pic_output(t.as_str())
            }
        },
        Err(t) => String::from_str("random fail: ").concat(t.as_str()),
    }
}

fn handle_delete(req: &BotRequest, db: &mut DbInfo) -> (r: String)
    requires
        old(db).wf(),
    ensures
        final (db).wf(),
        req@.pic.len() == 0 ==> final (db)@ == old(db)@ && r@ == "delete fail: no pic"@,
        req@.pic.len() > 0 ==> final (db)@ == delete_spec(old(db)@, req@.pic) && r@
            == "delete ok"@,
{
    if req.pic.as_str().is_empty() {
        return String::from_str("delete fail: no pic");
    }
    let result = delete_pic(req.pic.as_str(), db);
    match result {
        Ok(_) => String::from_str("delete ok"),
        Err(t) => String::from_str("delete fail: ").concat(t.as_str()),
    }
}

fn handle_replace(req: &BotRequest, db: &mut DbInfo) -> (r: String)
    requires
        old(db).wf(),
    ensures
        final (db).wf(),
        req@.pic.len() == 0 ==> final (db)@ == old(db)@ && r@ == "replace fail: no pic"@,
        req@.pic.len() > 0 && req@.word.len() == 0 ==> final (db)@ == old(db)@ && r@
            == "replace fail: no text"@,
        req@.pic.len() > 0 && req@.word.len() > 0 ==> final (db)@ == append_spec(
            delete_spec(old(db)@, req@.pic),
            req@.pic,
            split_ws(req@.word),
        ) && r@ == "replace ok"@,
{
    if req.pic.as_str().is_empty() {
        return String::from_str("replace fail: no pic");
    }
    if req.word.as_str().is_empty() {
        return String::from_str("replace fail: no text");
    }
    let result = replace_word(req.pic.as_str(), req.word.as_str(), db);
    match result {
        Ok(_) => String::from_str("replace ok"),
        Err(t) => String::from_str("replace fail: ").concat(t.as_str()),
    }
}

fn handle_info(req: &BotRequest, db: &DbInfo) -> (r: String)
    requires
        db.wf(),
    ensures
        req@.pic.len() == 0 ==> r@ == "info fail: no pic"@,
        req@.pic.len() > 0 && db@.pics.contains(req@.pic) ==> r@ == "info ok: "@ + join_sp(
            words_of(db@.assocs, req@.pic),
        ),
        req@.pic.len() > 0 && !db@.pics.contains(req@.pic) ==> r@ == "info fail: "@
            + "no such pic"@,
{
    if req.pic.as_str().is_empty() {
        return String::from_str("info fail: no pic");
    }
    let result = list_pic_words(req.pic.as_str(), db);
    match result {
        Ok(t) => String::from_str("info ok: ").concat(t.as_str()),
        Err(t) => String::from_str("info fail: ").concat(t.as_str()),
    }
}

fn handle_count(db: &DbInfo) -> (r: String)
    requires
        db.wf(),
    ensures
        r@ == "count ok: pic="@ + dec_str(db@.pics.len() as nat),
{
    let result = count_pic(db);
    match result {
        Ok(t) => String::from_str("count ok: pic=").concat(u64_to_string(t).as_str()),
        Err(t) => String::from_str("count fail: ").concat(t.as_str()),
    }
}

fn handle_clean(db: &mut DbInfo) -> (r: String)
    requires
        old(db).wf(),
    ensures
        final (db).wf(),
        final (db)@.assocs == old(db)@.assocs,
        final (db)@.pics == live_pics(old(db)@.pics, old(db)@.assocs),
        r@ == "clean ok: "@ + dec_str(
            (old(db)@.pics.len() - live_pics(old(db)@.pics, old(db)@.assocs).len()) as nat,
        ),
{
    let result = clean(db);
    match result {
        Ok(t) => String::from_str("clean ok: ").concat(t.as_str()),
        Err(t) => String::from_str("clean fail: ").concat(t.as_str()),
    }
}

/// The full contract of [`process_request`]: how the sessions, the store
/// and the produced directives relate to the incoming request.  `req1` is
/// the request after the session's remembered image token was adopted.
pub open spec fn dispatch_post(
    req0: ReqModel,
    g0: GlobalsModel,
    req1: ReqModel,
    g1: GlobalsModel,
    resps: Seq<RespModel>,
) -> bool {
    let k = session_key(req0);
    let ss1 = ensure_session(g0.sessions, k);
    let pic1 = if req0.pic.len() > 0 {
        req0.pic
    } else {
        lookup_param(ss1, k)
    };
    let req = ReqModel { pic: pic1, ..req0 };
    &&& req1 == req
    &&& g1.admin_id == g0.admin_id
    &&& match req0.req_type {
        BotRequestType::Ignore => g1.sessions == ss1 && g1.store == g0.store && resps.len() == 0,
        BotRequestType::Help => g1.sessions == ss1 && g1.store == g0.store && resps == seq![
            resp_of(req, help_text()),
        ],
        BotRequestType::HelpAdmin => g1.sessions == ss1 && g1.store == g0.store && resps == seq![
            resp_of(req, help_admin_text()),
        ],
        BotRequestType::About => g1.sessions == ss1 && g1.store == g0.store && resps == seq![
            resp_of(req, about_text()),
        ],
        BotRequestType::RecordPrevImg => {
            &&& g1.store == g0.store
            &&& resps.len() == 0
            &&& g1.sessions == if pic1.len() > 0 {
                set_session(ss1, k, pic1)
            } else {
                ss1
            }
        },
        BotRequestType::SetWord => g1.sessions == ss1 && (if pic1.len() == 0 {
            g1.store == g0.store && resps == seq![resp_of(req, "set fail: no pic"@)]
        } else if req0.word.len() == 0 {
            g1.store == g0.store && resps == seq![resp_of(req, "set fail: no text"@)]
        } else {
            g1.store == append_spec(g0.store, pic1, split_ws(req0.word)) && resps == seq![
                resp_of(req, "set ok"@),
            ]
        }),
        BotRequestType::Query => g1.sessions == ss1 && g1.store == g0.store && query_resps_post(
            req,
            g0.store,
            resps,
        ),
        BotRequestType::Random => g1.sessions == ss1 && g1.store == g0.store && (if g0
            .store
            .pics
            .len() == 0 {
            resps == seq![resp_of(req, "random fail: db empty"@)]
        } else {
            exists|p: Seq<char>|
                g0.store.pics.contains(p) && resps == seq![
                    resp_of(
                        req,
                        if p.len() == 0 {
                            "random fail: db empty"@
                        } else {
                            wrap_pic(p)
                        },
                    ),
                ]
        }),
        BotRequestType::Delete => g1.sessions == ss1 && (if pic1.len() == 0 {
            g1.store == g0.store && resps == seq![resp_of(req, "delete fail: no pic"@)]
        } else {
            g1.store == delete_spec(g0.store, pic1) && resps == seq![resp_of(req, "delete ok"@)]
        }),
        BotRequestType::Replace => g1.sessions == ss1 && (if pic1.len() == 0 {
            g1.store == g0.store && resps == seq![resp_of(req, "replace fail: no pic"@)]
        } else if req0.word.len() == 0 {
            g1.store == g0.store && resps == seq![resp_of(req, "replace fail: no text"@)]
        } else {
            g1.store == append_spec(delete_spec(g0.store, pic1), pic1, split_ws(req0.word))
                && resps == seq![resp_of(req, "replace ok"@)]
        }),
        BotRequestType::Info => g1.sessions == ss1 && g1.store == g0.store && (if pic1.len()
            == 0 {
            resps == seq![resp_of(req, "info fail: no pic"@)]
        } else if g0.store.pics.contains(pic1) {
            resps == seq![resp_of(req, "info ok: "@ + join_sp(words_of(g0.store.assocs, pic1)))]
        } else {
            resps == seq![resp_of(req, "info fail: "@ + "no such pic"@)]
        }),
        BotRequestType::Count => g1.sessions == ss1 && g1.store == g0.store && resps == seq![
            resp_of(req, "count ok: pic="@ + dec_str(g0.store.pics.len() as nat)),
        ],
        BotRequestType::Clean => {
            &&& g1.sessions == ss1
            &&& g1.store == StoreModel {
                pics: live_pics(g0.store.pics, g0.store.assocs),
                assocs: g0.store.assocs,
            }
            &&& resps == seq![
                resp_of(
                    req,
                    "clean ok: "@ + dec_str(
                        (g0.store.pics.len() - live_pics(g0.store.pics, g0.store.assocs).len())
                            as nat,
                    ),
                ),
            ]
        },
    }
}

/// Resolves the conversation's session, adopts its remembered image token
/// when the request carries none, and executes the routed command.
pub fn process_request(req: &mut BotRequest, globals: &mut BotGlobals) -> (resps: Vec<BotResponse>)
    requires
        old(globals).wf(),
    ensures
        final (globals).wf(),
        dispatch_post(
            old(req)@,
            old(globals)@,
            final (req)@,
            final (globals)@,
            resps.deep_view(),
        ),
{
    let ghost req0 = req@;
    let ghost g0 = globals@;
    let skey = if req.is_in_group {
        String::from_str("g").concat(req.group_id.as_str())
    } else {
        req.sender_id.clone()
    };
    let ghost k = session_key(req0);
    proof {
        assert(skey@ == k);
    }
    let idx: usize = match find_session(&globals.sessions, skey.as_str()) {
        Some(i) => {
            proof {
                assert(has_session(g0.sessions, k));
            }
            i
        },
        None => {
            let ghost dv0 = globals.sessions.deep_view();
            globals.sessions.push((skey.clone(), String::new()));
            proof {
                assert(globals.sessions.deep_view() =~= dv0.push((k, Seq::empty())));
            }
            globals.sessions.len() - 1
        },
    };
    let ghost ss1 = ensure_session(g0.sessions, k);
    proof {
        assert(globals.sessions.deep_view() == ss1);
        assert(ss1[idx as int].0 == k);
        assert(sessions_wf(ss1)) by {
            if !has_session(g0.sessions, k) {
                assert forall|i: int, j: int| 0 <= i < j < ss1.len() implies ss1[i].0 != ss1[j].0 by {
                    if j == ss1.len() - 1 {
                        assert(g0.sessions[i] == ss1[i]);
                    }
                }
            }
        }
    }
    if req.pic.as_str().is_empty() {
        let prev = globals.sessions[idx].1.clone();
        req.pic = prev;
        proof {
            lemma_lookup_at(ss1, idx as int, k);
        }
    }
    let ghost req1 = ReqModel { pic: if req0.pic.len() > 0 { req0.pic } else { lookup_param(ss1, k) }, ..req0 };
    proof {
        assert(req@ =~~= req1);
    }
    match req.req_type {
        BotRequestType::Ignore => {
            let v: Vec<BotResponse> = Vec::new();
            proof {
                assert(v.deep_view() =~= Seq::<RespModel>::empty());
            }
            v
        },
        BotRequestType::Help => BotResponse::simple(handle_help(), req),
        BotRequestType::HelpAdmin => BotResponse::simple(handle_help_admin(), req),
        BotRequestType::About => BotResponse::simple(handle_about(), req),
        BotRequestType::RecordPrevImg => {
            let v = handle_record_prev_img(req, &mut globals.sessions, idx);
            proof {
                if req1.pic.len() > 0 {
                    assert(globals.sessions.deep_view() =~= set_session(ss1, k, req1.pic)) by {
                        let upd = ss1.update(idx as int, (ss1[idx as int].0, req1.pic));
                        assert forall|t: int| 0 <= t < ss1.len() implies upd[t] == set_session(
                            ss1,
                            k,
                            req1.pic,
                        )[t] by {
                            if t != idx {
                                assert(ss1[t].0 != k);
                            }
                        }
                    }
                }
            }
            v
        },
        BotRequestType::SetWord => BotResponse::simple(handle_set(req, &mut globals.db), req),
        BotRequestType::Query => handle_query(req, &mut globals.db),
        BotRequestType::Random => BotResponse::simple(handle_random(req, &mut globals.db), req),
        BotRequestType::Delete => BotResponse::simple(handle_delete(req, &mut globals.db), req),
        BotRequestType::Replace => BotResponse::simple(handle_replace(req, &mut globals.db), req),
        BotRequestType::Info => BotResponse::simple(handle_info(req, &globals.db), req),
        BotRequestType::Count => BotResponse::simple(handle_count(&globals.db), req),
        BotRequestType::Clean => BotResponse::simple(handle_clean(&mut globals.db), req),
    }
}

/// A group message that does not mention the bot never produces a visible
/// response, whatever its content: it classifies to `RecordPrevImg` (or is
/// dropped as the bot's own echo), and dispatching either produces no
/// directive.
pub proof fn lemma_group_unmentioned_silent(
    ps: Seq<(Seq<char>, Seq<char>)>,
    admin: Seq<char>,
    g0: GlobalsModel,
    req1: ReqModel,
    g1: GlobalsModel,
    resps: Seq<RespModel>,
)
    requires
        lookup_param(ps, "ExternalId"@).len() > 0,
        find_first(
            lookup_param(ps, "Message"@),
            mention_id_marker(lookup_param(ps, "RobotQQ"@)),
        ) is None,
        find_first(
            lookup_param(ps, "Message"@),
            mention_name_marker(lookup_param(ps, "Name"@)),
        ) is None,
        dispatch_post(classify(ps, admin), g0, req1, g1, resps),
    ensures
        classify(ps, admin).req_type is RecordPrevImg || classify(ps, admin).req_type is Ignore,
        resps.len() == 0,
{
}

/// A private message from anyone but the admin classifies to `Ignore` and
/// produces no response at all.
pub proof fn lemma_private_non_admin_ignored(
    ps: Seq<(Seq<char>, Seq<char>)>,
    admin: Seq<char>,
    g0: GlobalsModel,
    req1: ReqModel,
    g1: GlobalsModel,
    resps: Seq<RespModel>,
)
    requires
        lookup_param(ps, "ExternalId"@).len() == 0,
        lookup_param(ps, "QQ"@) != admin,
        dispatch_post(classify(ps, admin), g0, req1, g1, resps),
    ensures
        classify(ps, admin).req_type is Ignore,
        resps.len() == 0,
        g1.store == g0.store,
{
}

} // verus!
