//! Translation between the transport and the bot: decoding the form-encoded
//! request body, running the request, and serialising the directives.

use vstd::prelude::*;

use crate::bot::{
    classify, dispatch_post, lookup_pairs, lookup_param, process_request, BotGlobals, BotRequest,
    BotResponse, BotResponseType, ReqModel, RespModel,
};
use crate::text::str_eq;

verus! {

/// The key/value pairs that decoding a form-encoded body yields, in order.
pub uninterp spec fn form_decode(s: Seq<char>) -> Seq<(Seq<char>, Seq<char>)>;

/// Relies on url's `form_urlencoded::parse`: decodes an
/// `application/x-www-form-urlencoded` body into key/value pairs, a
/// function of the body text alone.
#[verifier::external_body]
fn decode_form(body: &str) -> (r: Vec<(String, String)>)
    ensures
        r.deep_view() == form_decode(body@),
{
    let mut v = Vec::new();
    for p in url::form_urlencoded::parse(body.as_bytes()) {
        v.push((p.0.into_owned(), p.1.into_owned()));
    }
    v
}

/// The name under which a directive's kind is serialised.
pub open spec fn resp_type_str(t: BotResponseType) -> Seq<char> {
    match t {
        BotResponseType::SendMessage => "SendMessage"@,
        BotResponseType::SendClusterMessage => "SendClusterMessage"@,
    }
}

/// One directive on the wire.
pub open spec fn render_resp(r: RespModel) -> Seq<char> {
    "<&&>"@ + resp_type_str(r.resp_type) + "<&>"@ + r.target_id + "<&>"@ + r.text + "\r\n"@
}

/// All directives on the wire, in order.
pub open spec fn render_resps(rs: Seq<RespModel>) -> Seq<char>
    decreases rs.len(),
{
    if rs.len() == 0 {
        Seq::empty()
    } else {
        render_resps(rs.drop_last()) + render_resp(rs.last())
    }
}

fn render_responses(resps: &Vec<BotResponse>) -> (r: String)
    ensures
        r@ == render_resps(resps.deep_view()),
{
    let ghost dv = resps.deep_view();
    let mut acc = String::new();
    proof {
        assert(dv.take(0) =~= Seq::<RespModel>::empty());
    }
    let mut i: usize = 0;
    while i < resps.len()
        invariant
            i <= resps@.len(),
            dv == resps.deep_view(),
            acc@ == render_resps(dv.take(i as int)),
        decreases resps@.len() - i,
    {
        acc.append("<&&>");
        match resps[i].resp_type {
            BotResponseType::SendMessage => acc.append("SendMessage"),
            BotResponseType::SendClusterMessage => acc.append("SendClusterMessage"),
        }
        acc.append("<&>");
        acc.append(resps[i].target_id.as_str());
        acc.append("<&>");
        acc.append(resps[i].text.as_str());
        acc.append("\r\n");
        proof {
            assert(dv.take(i + 1).drop_last() =~= dv.take(i as int));
            assert(dv.take(i + 1).last() == dv[i as int]);
        }
        i += 1;
    }
    proof {
        assert(dv.take(resps@.len() as int) =~= dv);
    }
    acc
}

/// The response the transport sends back.
pub struct HttpResponse {
    pub status: u16,
    pub body: String,
}

impl HttpResponse {
    /// A success response carrying `body`.
    pub fn new(body: String) -> (r: HttpResponse)
        ensures
            r.status == 200,
            r.body@ == body@,
    {
        HttpResponse { status: 200, body }
    }

    /// A success response with nothing to say.
    pub fn empty() -> (r: HttpResponse)
        ensures
            r.status == 200,
            r.body@ == Seq::<char>::empty(),
    {
        HttpResponse { status: 200, body: String::new() }
    }
}

/// Decodes one inbound event body and runs it: instant-message events are
/// classified and dispatched, everything else is dropped with an empty
/// response.
pub fn handle_http_request(body: &str, globals: &mut BotGlobals) -> (r: HttpResponse)
    requires
        old(globals).wf(),
    ensures
        final (globals).wf(),
        r.status == 200,
        ({
            let ps = form_decode(body@);
            let ev = lookup_param(ps, "Event"@);
            &&& (ev != "ReceiveNormalIM"@ && ev != "ReceiveClusterIM"@) ==> final (globals)@
                == old(globals)@ && r.body@ == Seq::<char>::empty()
            &&& (ev == "ReceiveNormalIM"@ || ev == "ReceiveClusterIM"@) ==> exists|
                req1: ReqModel,
                resps: Seq<RespModel>,
            |
                dispatch_post(
                    classify(ps, old(globals)@.admin_id),
                    old(globals)@,
                    req1,
                    final (globals)@,
                    resps,
                ) && r.body@ == render_resps(resps)
        }),
{
    let params = decode_form(body);
    let ev = lookup_pairs(&params, "Event");
    if str_eq(ev.as_str(), "ReceiveNormalIM") || str_eq(ev.as_str(), "ReceiveClusterIM") {
        let mut req = BotRequest::new(&params, globals);
        let resps = process_request(&mut req, globals);
        let out = render_responses(&resps);
        proof {
            assert(dispatch_post(
                classify(form_decode(body@), old(globals)@.admin_id),
                old(globals)@,
                req@,
                globals@,
                resps.deep_view(),
            ) && out@ == render_resps(resps.deep_view()));
        }
        HttpResponse::new(out)
    } else {
        HttpResponse::empty()
    }
}

} // verus!
