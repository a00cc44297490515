//! The request pipeline and the router.
//!
//! Every route shares one sequence: read the body (an empty body reads as
//! JSON `null`), decode it into the route's input type, invoke the handler
//! with the shared storage, encode the result, and map any failure to its
//! status and message envelope. The router is a static table from
//! `(path, method)` to one pipeline instance; an unknown path answers 404
//! and a known path under an unsupported method answers 405.

use vstd::prelude::*;
use vstd::string::*;
use vstd::utf8::{decode_utf8, encode_utf8, valid_utf8};
use crate::codec::{
    decode_ephemeral_mug, decode_mug, decode_unit, encode_message, encode_mug, encode_mugs,
    message_json, mug_json, mug_models, mugs_json, parse_eph_doc, parse_mug_doc, parse_null_doc,
    skip_ws, str_eq, DecodeErr,
};
use crate::echo;
use crate::error::PipelineError;
use crate::message::Message;
use crate::mugs;
use crate::mugs::{has_id, unique_ids, Mug, MugModel};
use crate::storage::Storage;

verus! {

broadcast use {vstd::utf8::encode_utf8_valid_utf8, vstd::utf8::encode_utf8_decode_utf8};

/// The request methods the router distinguishes; every other method falls
/// under `Other` and is never matched by a route.
#[derive(Clone, Copy, Debug)]
pub enum Method {
    Get,
    Put,
    Patch,
    Delete,
    Other,
}

/// A rendered response: an HTTP status and a JSON body.
#[derive(Debug)]
pub struct Response {
    pub status: u16,
    pub body: String,
}

/// The five bound pipeline instances of the routing table.
#[derive(Clone, Copy, Debug)]
pub enum Route {
    EchoGet,
    MugsGet,
    MugsPut,
    MugsPatch,
    MugsDelete,
}

// ---------------------------------------------------------------------------
// The body text and the outcome predicates
// ---------------------------------------------------------------------------

/// The text a request body decodes to: an empty body reads as the four
/// characters `null`, and anything else must be valid UTF-8.
pub open spec fn body_text(b: Seq<u8>) -> Option<Seq<char>> {
    let eb = if b.len() == 0 {
        encode_utf8("null"@)
    } else {
        b
    };
    if valid_utf8(eb) {
        Some(decode_utf8(eb))
    } else {
        None
    }
}

/// A 400 response whose body wraps some decode diagnostic in the
/// invalid-payload envelope.
pub open spec fn invalid_payload_resp(resp: Response) -> bool {
    resp.status == 400 && exists|d: Seq<char>|
        resp.body@ == message_json("Invalid request payload: "@ + d)
}

/// A 500 response carrying the generic internal-failure envelope.
pub open spec fn cannot_fulfil_resp(resp: Response) -> bool {
    resp.status == 500 && resp.body@ == message_json("Cannot fulfil request"@)
}

/// Some record of the model sequence carries the id.
pub open spec fn model_has_id(s: Seq<MugModel>, id: int) -> bool {
    exists|k: int| 0 <= k < s.len() && s[k].id == id
}

/// The echo route: a body reading as `null` answers 200 with the greeting;
/// anything else is an invalid payload.
pub open spec fn echo_outcome(t: Option<Seq<char>>, resp: Response) -> bool {
    match t {
        Some(tx) => if parse_null_doc(tx) {
            resp.status == 200 && resp.body@ == message_json("mug-bancha says hello!"@)
        } else {
            invalid_payload_resp(resp)
        },
        None => invalid_payload_resp(resp),
    }
}

/// The listing route: a body reading as `null` answers 200 with the JSON
/// array of all records; the collection is never changed.
pub open spec fn list_outcome(
    old_m: Seq<MugModel>,
    new_m: Seq<MugModel>,
    t: Option<Seq<char>>,
    resp: Response,
) -> bool {
    new_m == old_m && match t {
        Some(tx) => if parse_null_doc(tx) {
            resp.status == 200 && resp.body@ == mugs_json(old_m)
        } else {
            invalid_payload_resp(resp)
        },
        None => invalid_payload_resp(resp),
    }
}

/// The insert route: a body decoding as a creation payload appends one
/// record under a fresh id and answers 200 with that record — always, while
/// the record count is below the id space; any other body is an invalid
/// payload and changes nothing.
pub open spec fn put_outcome(
    old_m: Seq<MugModel>,
    new_m: Seq<MugModel>,
    t: Option<Seq<char>>,
    resp: Response,
) -> bool {
    match t {
        Some(tx) => match parse_eph_doc(tx) {
            Some(em) => (exists|mm: MugModel|
                mm.data() == em && (forall|i: int| 0 <= i < old_m.len() ==> old_m[i].id != mm.id)
                    && new_m == old_m.push(mm) && resp.status == 200 && resp.body@ == mug_json(mm))
                || (cannot_fulfil_resp(resp) && new_m == old_m && old_m.len()
                    >= 0x7fffffffffffffff),
            None => invalid_payload_resp(resp) && new_m == old_m,
        },
        None => invalid_payload_resp(resp) && new_m == old_m,
    }
}

/// The update route: a body decoding as a full record replaces the stored
/// record with the matching id entirely and answers 200 with it; an unknown
/// id answers the internal-failure envelope and changes nothing; any other
/// body is an invalid payload and changes nothing.
pub open spec fn patch_outcome(
    old_m: Seq<MugModel>,
    new_m: Seq<MugModel>,
    t: Option<Seq<char>>,
    resp: Response,
) -> bool {
    match t {
        Some(tx) => match parse_mug_doc(tx) {
            Some(m) => if model_has_id(old_m, m.id) {
                resp.status == 200 && resp.body@ == mug_json(m) && exists|k: int|
                    0 <= k < old_m.len() && old_m[k].id == m.id && new_m == old_m.update(k, m)
            } else {
                cannot_fulfil_resp(resp) && new_m == old_m
            },
            None => invalid_payload_resp(resp) && new_m == old_m,
        },
        None => invalid_payload_resp(resp) && new_m == old_m,
    }
}

/// The removal route: a body decoding as a full record removes the stored
/// record with the matching id and answers 200 with `null`; an unknown id
/// answers the internal-failure envelope and changes nothing; any other body
/// is an invalid payload and changes nothing.
pub open spec fn delete_outcome(
    old_m: Seq<MugModel>,
    new_m: Seq<MugModel>,
    t: Option<Seq<char>>,
    resp: Response,
) -> bool {
    match t {
        Some(tx) => match parse_mug_doc(tx) {
            Some(m) => if model_has_id(old_m, m.id) {
                resp.status == 200 && resp.body@ == "null"@ && (exists|k: int|
                    0 <= k < old_m.len() && old_m[k].id == m.id && new_m == old_m.remove(k))
                    && (forall|j: int| 0 <= j < new_m.len() ==> new_m[j].id != m.id)
            } else {
                cannot_fulfil_resp(resp) && new_m == old_m
            },
            None => invalid_payload_resp(resp) && new_m == old_m,
        },
        None => invalid_payload_resp(resp) && new_m == old_m,
    }
}

/// An empty request body reads as the text `null`, and that text is the
/// document the bodyless routes accept: a request with no body therefore
/// decodes successfully wherever no input is expected.
pub proof fn lemma_empty_body_reads_null()
    ensures
        body_text(Seq::<u8>::empty()) == Some("null"@),
        parse_null_doc("null"@),
{
    reveal_strlit("null");
    assert(skip_ws("null"@, 0) == 0);
    assert(crate::codec::lit_at("null"@, 0, "null"@)) by {
        assert("null"@.subrange(0, 4) =~= "null"@);
    }
    assert(skip_ws("null"@, 4) == 4);
}

/// Listing a collection that has seen no inserts answers 200 with the empty
/// JSON array, exactly the two characters `[]`, and stores nothing.
pub proof fn lemma_listing_empty_store(resp: Response, new_m: Seq<MugModel>)
    requires
        list_outcome(Seq::<MugModel>::empty(), new_m, Some("null"@), resp),
    ensures
        resp.status == 200,
        resp.body@ == "[]"@,
        new_m == Seq::<MugModel>::empty(),
{
    lemma_empty_body_reads_null();
    crate::codec::lemma_empty_mugs_json();
}

// ---------------------------------------------------------------------------
// Model glue
// ---------------------------------------------------------------------------

proof fn lemma_models_push(s: Seq<Mug>, m: Mug)
    ensures
        mug_models(s.push(m)) == mug_models(s).push(m@),
{
    assert(mug_models(s.push(m)) =~= mug_models(s).push(m@));
}

proof fn lemma_models_update(s: Seq<Mug>, k: int, m: Mug)
    requires
        0 <= k < s.len(),
    ensures
        mug_models(s.update(k, m)) == mug_models(s).update(k, m@),
{
    assert(mug_models(s.update(k, m)) =~= mug_models(s).update(k, m@));
}

proof fn lemma_models_remove(s: Seq<Mug>, k: int)
    requires
        0 <= k < s.len(),
    ensures
        mug_models(s.remove(k)) == mug_models(s).remove(k),
{
    assert forall|j: int| 0 <= j < s.remove(k).len() implies mug_models(s.remove(k))[j]
        == mug_models(s).remove(k)[j] by {
        if j < k {
            assert(s.remove(k)[j] == s[j]);
        } else {
            assert(s.remove(k)[j] == s[j + 1]);
        }
    }
    assert(mug_models(s.remove(k)) =~= mug_models(s).remove(k));
}

proof fn lemma_has_id_models(s: Seq<Mug>, id: i64)
    ensures
        has_id(s, id) <==> model_has_id(mug_models(s), id as int),
{
    if has_id(s, id) {
        let k = choose|k: int| 0 <= k < s.len() && s[k].id == id;
        assert(mug_models(s)[k].id == id as int);
    }
    if model_has_id(mug_models(s), id as int) {
        let k = choose|k: int| 0 <= k < mug_models(s).len() && mug_models(s)[k].id == id as int;
        assert(s[k].id == id);
    }
}

// ---------------------------------------------------------------------------
// The pipeline
// ---------------------------------------------------------------------------

/// The bytes the decoder reads: an empty body is replaced by the four-byte
/// literal `null`, so bodyless requests decode as JSON `null`.
pub fn json_bytes(body: &[u8]) -> (r: Vec<u8>)
    ensures
        body@.len() == 0 ==> r@ == encode_utf8("null"@),
        body@.len() > 0 ==> r@ == body@,
{
    if body.len() == 0 {
        "null".as_bytes_vec()
    } else {
        vstd::slice::slice_to_vec(body)
    }
}

/// Relies on `String::from_utf8`: succeeds exactly on valid UTF-8 input and
/// yields the characters the bytes encode, per vstd's UTF-8 model.
#[verifier::external_body]
fn utf8_to_string(v: Vec<u8>) -> (r: Option<String>)
    ensures
        r is Some <==> valid_utf8(v@),
        (r matches Some(t) ==> t@ == decode_utf8(v@)),
{
    String::from_utf8(v).ok()
}

/// Reads the request body into the text the decoders see.
fn body_to_text(body: &[u8]) -> (r: Option<String>)
    ensures
        match r {
            Some(t) => body_text(body@) == Some(t@),
            None => body_text(body@) is None,
        },
{
    let bytes = json_bytes(body);
    utf8_to_string(bytes)
}

/// A response carrying the given status and a `Message` envelope.
pub fn error_response(status: u16, msg: Message) -> (r: Response)
    ensures
        r.status == status,
        r.body@ == message_json(msg.message@),
{
    let body = encode_message(&msg);
    Response { status: status, body: body }
}

/// The response a pipeline failure renders to: its mapped status and its
/// description in a `Message` envelope.
fn failure_response(e: &PipelineError) -> (r: Response)
    ensures
        r.status as int == e.spec_status(),
        r.body@ == message_json(e.spec_describe()),
{
    let status = e.http_status();
    let body = e.describe();
    error_response(status, Message { message: body })
}

/// The response a body decode failure renders to: 400 with the diagnostic
/// wrapped in the invalid-payload envelope.
fn decode_failure_response(e: &DecodeErr) -> (r: Response)
    ensures
        invalid_payload_resp(r),
{
    let pe = PipelineError::from_decode(e);
    let r = failure_response(&pe);
    proof {
        assert(r.body@ == message_json("Invalid request payload: "@ + e.spec_describe()));
    }
    r
}

/// One pipeline run: reads the body, decodes the route's input type,
/// invokes the handler on the shared storage, encodes the result, and maps
/// any failure to its status and envelope.
pub fn process_request<S: Storage>(storage: &mut S, route: Route, body: &[u8]) -> (r: Response)
    ensures
        route is EchoGet ==> echo_outcome(body_text(body@), r) && final(storage).records() == old(
            storage,
        ).records(),
        route is MugsGet ==> list_outcome(
            mug_models(old(storage).records()),
            mug_models(final(storage).records()),
            body_text(body@),
            r,
        ),
        route is MugsPut ==> put_outcome(
            mug_models(old(storage).records()),
            mug_models(final(storage).records()),
            body_text(body@),
            r,
        ),
        route is MugsPatch ==> patch_outcome(
            mug_models(old(storage).records()),
            mug_models(final(storage).records()),
            body_text(body@),
            r,
        ),
        route is MugsDelete ==> delete_outcome(
            mug_models(old(storage).records()),
            mug_models(final(storage).records()),
            body_text(body@),
            r,
        ),
        unique_ids(old(storage).records()) ==> unique_ids(final(storage).records()),
{
    let text = match body_to_text(body) {
        Some(t) => t,
        None => {
            return decode_failure_response(&DecodeErr::NotUtf8);
        },
    };
    match route {
        Route::EchoGet => {
            match decode_unit(text.as_str()) {
                Ok(_) => {
                    match echo::get(()) {
                        Ok(b) => {
                            let out = encode_message(&Message { message: b.message });
                            Response { status: 200, body: out }
                        },
                        Err(e) => failure_response(&e),
                    }
                },
                Err(de) => decode_failure_response(&de),
            }
        },
        Route::MugsGet => {
            match decode_unit(text.as_str()) {
                Ok(_) => {
                    match mugs::get((), &*storage) {
                        Ok(v) => {
                            let out = encode_mugs(&v);
                            Response { status: 200, body: out }
                        },
                        Err(e) => failure_response(&e),
                    }
                },
                Err(de) => decode_failure_response(&de),
            }
        },
        Route::MugsPut => {
            match decode_ephemeral_mug(text.as_str()) {
                Ok(em) => {
                    let ghost old_recs = storage.records();
                    match mugs::put(em, storage) {
                        Ok(m) => {
                            proof {
                                lemma_models_push(old_recs, m);
                                let old_m = mug_models(old_recs);
                                assert forall|i: int| 0 <= i < old_m.len() implies old_m[i].id
                                    != m@.id by {
                                    assert(old_recs[i].id != m.id);
                                }
                            }
                            let out = encode_mug(&m);
                            let resp = Response { status: 200, body: out };
                            proof {
                                let old_m = mug_models(old_recs);
                                let new_m = mug_models(storage.records());
                                assert(m@.data() == em@);
                                assert(new_m == old_m.push(m@));
                                assert(resp.body@ == mug_json(m@));
                                assert(exists|mm: MugModel|
                                    mm.data() == em@ && (forall|i: int|
                                        0 <= i < old_m.len() ==> old_m[i].id != mm.id) && new_m
                                        == old_m.push(mm) && resp.status == 200 && resp.body@
                                        == mug_json(mm));
                            }
                            resp
                        },
                        Err(e) => {
                            proof {
                                assert(mug_models(old_recs).len() == old_recs.len());
                            }
                            failure_response(&e)
                        },
                    }
                },
                Err(de) => decode_failure_response(&de),
            }
        },
        Route::MugsPatch => {
            match decode_mug(text.as_str()) {
                Ok(m) => {
                    let ghost old_recs = storage.records();
                    let ghost mm = m@;
                    proof {
                        lemma_has_id_models(old_recs, m.id);
                    }
                    match mugs::patch(m, storage) {
                        Ok(ret) => {
                            proof {
                                let k = choose|k: int|
                                    0 <= k < old_recs.len() && old_recs[k].id == mm.id as i64
                                        && storage.records() == old_recs.update(k, ret);
                                lemma_models_update(old_recs, k, ret);
                            }
                            let out = encode_mug(&ret);
                            Response { status: 200, body: out }
                        },
                        Err(e) => failure_response(&e),
                    }
                },
                Err(de) => decode_failure_response(&de),
            }
        },
        Route::MugsDelete => {
            match decode_mug(text.as_str()) {
                Ok(m) => {
                    let ghost old_recs = storage.records();
                    let ghost mm = m@;
                    proof {
                        lemma_has_id_models(old_recs, m.id);
                    }
                    match mugs::delete(m, storage) {
                        Ok(_) => {
                            proof {
                                let k = choose|k: int|
                                    0 <= k < old_recs.len() && old_recs[k].id == mm.id as i64
                                        && storage.records() == old_recs.remove(k);
                                lemma_models_remove(old_recs, k);
                                lemma_has_id_models(storage.records(), m.id);
                            }
                            Response { status: 200, body: "null".to_owned() }
                        },
                        Err(e) => failure_response(&e),
                    }
                },
                Err(de) => decode_failure_response(&de),
            }
        },
    }
}

/// The router: looks the pair `(path, method)` up in the static table and
/// runs the bound pipeline; an unknown path answers 404 and a known path
/// under an unsupported method answers 405, both with a `Message` envelope.
pub fn handle_request<S: Storage>(
    storage: &mut S,
    path: &str,
    method: Method,
    body: &[u8],
) -> (r: Response)
    ensures
        path@ == "/1/echo"@ && method is Get ==> echo_outcome(body_text(body@), r)
            && final(storage).records() == old(storage).records(),
        path@ == "/1/echo"@ && !(method is Get) ==> r.status == 405 && r.body@ == message_json(
            "Method not allowed"@,
        ) && final(storage).records() == old(storage).records(),
        path@ == "/1/mugs"@ && method is Get ==> list_outcome(
            mug_models(old(storage).records()),
            mug_models(final(storage).records()),
            body_text(body@),
            r,
        ),
        path@ == "/1/mugs"@ && method is Put ==> put_outcome(
            mug_models(old(storage).records()),
            mug_models(final(storage).records()),
            body_text(body@),
            r,
        ),
        path@ == "/1/mugs"@ && method is Patch ==> patch_outcome(
            mug_models(old(storage).records()),
            mug_models(final(storage).records()),
            body_text(body@),
            r,
        ),
        path@ == "/1/mugs"@ && method is Delete ==> delete_outcome(
            mug_models(old(storage).records()),
            mug_models(final(storage).records()),
            body_text(body@),
            r,
        ),
        path@ == "/1/mugs"@ && method is Other ==> r.status == 405 && r.body@ == message_json(
            "Method not allowed"@,
        ) && final(storage).records() == old(storage).records(),
        path@ != "/1/echo"@ && path@ != "/1/mugs"@ ==> r.status == 404 && r.body@ == message_json(
            "Not found"@,
        ) && final(storage).records() == old(storage).records(),
        unique_ids(old(storage).records()) ==> unique_ids(final(storage).records()),
{
    proof {
        reveal_strlit("/1/echo");
        reveal_strlit("/1/mugs");
    }
    if str_eq(path, "/1/echo") {
        proof {
            assert("/1/echo"@[3] == 'e');
            assert("/1/mugs"@[3] == 'm');
            assert(path@ != "/1/mugs"@);
        }
        match method {
            Method::Get => process_request(storage, Route::EchoGet, body),
            _ => error_response(405, Message::from("Method not allowed")),
        }
    } else if str_eq(path, "/1/mugs") {
        match method {
            Method::Get => process_request(storage, Route::MugsGet, body),
            Method::Put => process_request(storage, Route::MugsPut, body),
            Method::Patch => process_request(storage, Route::MugsPatch, body),
            Method::Delete => process_request(storage, Route::MugsDelete, body),
            Method::Other => error_response(405, Message::from("Method not allowed")),
        }
    } else {
        error_response(404, Message::from("Not found"))
    }
}

} // verus!
