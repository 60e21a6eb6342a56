//! The texts that requests are answered with.

use crate::decimal::decimal_text;
use vstd::prelude::*;

verus! {

/// The text of a response with the status 200, of which the header states the
/// length of the body.
pub open spec fn ok_response(content_type: Seq<char>, body: Seq<char>) -> Seq<char> {
    "HTTP/1.1 200 OK\r\nContent-Type: "@ + content_type + "\r\nContent-Length: "@ + decimal_text(
        body.len(),
    ) + "\r\nConnection: keep-alive\r\n\r\n"@ + body
}

/// The verdict on a transaction with so many frauds among its neighbours: it is
/// approved if they are fewer than three, and its score is a fifth of them.
pub open spec fn verdict(fraud_count: int) -> Seq<char> {
    "{\"approved\":"@ + (if fraud_count < 3 {
        "true"@
    } else {
        "false"@
    }) + ",\"fraud_score\":"@ + (if fraud_count == 0 {
        "0"@
    } else if fraud_count == 5 {
        "1"@
    } else {
        "0."@ + decimal_text((2 * fraud_count) as nat)
    }) + "}"@
}

/// The answer that the service is ready.
pub fn ready_response() -> (resp: &'static str)
    ensures
        resp@ == ok_response("text/plain"@, "OK"@),
{
    let resp: &'static str =
        "HTTP/1.1 200 OK\r\nContent-Type: text/plain\r\nContent-Length: 2\r\nConnection: keep-alive\r\n\r\nOK";
    proof {
        reveal_strlit("HTTP/1.1 200 OK\r\nContent-Type: text/plain\r\nContent-Length: 2\r\nConnection: keep-alive\r\n\r\nOK");
        reveal_strlit("HTTP/1.1 200 OK\r\nContent-Type: ");
        reveal_strlit("text/plain");
        reveal_strlit("\r\nContent-Length: ");
        reveal_strlit("\r\nConnection: keep-alive\r\n\r\n");
        reveal_strlit("OK");
        assert(resp@ =~= ok_response("text/plain"@, "OK"@));
    }
    resp
}

/// The text of the answer to a transaction with so many frauds among its five
/// neighbours.
pub open spec fn verdict_text(fraud_count: int) -> Seq<char> {
    ok_response("application/json"@, verdict(fraud_count))
}

/// The answer to a transaction with so many frauds among its five neighbours.
pub fn verdict_response(fraud_count: u32) -> (resp: &'static str)
    requires
        fraud_count <= 5,
    ensures
        resp@ == verdict_text(fraud_count as int),
{
    proof {
        reveal_strlit("HTTP/1.1 200 OK\r\nContent-Type: ");
        reveal_strlit("application/json");
        reveal_strlit("\r\nContent-Length: ");
        reveal_strlit("\r\nConnection: keep-alive\r\n\r\n");
        reveal_strlit("{\"approved\":");
        reveal_strlit("true");
        reveal_strlit("false");
        reveal_strlit(",\"fraud_score\":");
        reveal_strlit("0");
        reveal_strlit("1");
        reveal_strlit("0.");
        reveal_strlit("}");
        reveal_with_fuel(decimal_text, 3);
    }
    if fraud_count == 0 {
        let resp: &'static str =
            "HTTP/1.1 200 OK\r\nContent-Type: application/json\r\nContent-Length: 33\r\nConnection: keep-alive\r\n\r\n{\"approved\":true,\"fraud_score\":0}";
        proof {
            reveal_strlit("HTTP/1.1 200 OK\r\nContent-Type: application/json\r\nContent-Length: 33\r\nConnection: keep-alive\r\n\r\n{\"approved\":true,\"fraud_score\":0}");
            assert(resp@ =~= ok_response("application/json"@, verdict(0)));
        }
        resp
    } else if fraud_count == 1 {
        let resp: &'static str =
            "HTTP/1.1 200 OK\r\nContent-Type: application/json\r\nContent-Length: 35\r\nConnection: keep-alive\r\n\r\n{\"approved\":true,\"fraud_score\":0.2}";
        proof {
            reveal_strlit("HTTP/1.1 200 OK\r\nContent-Type: application/json\r\nContent-Length: 35\r\nConnection: keep-alive\r\n\r\n{\"approved\":true,\"fraud_score\":0.2}");
            assert(resp@ =~= ok_response("application/json"@, verdict(1)));
        }
        resp
    } else if fraud_count == 2 {
        let resp: &'static str =
            "HTTP/1.1 200 OK\r\nContent-Type: application/json\r\nContent-Length: 35\r\nConnection: keep-alive\r\n\r\n{\"approved\":true,\"fraud_score\":0.4}";
        proof {
            reveal_strlit("HTTP/1.1 200 OK\r\nContent-Type: application/json\r\nContent-Length: 35\r\nConnection: keep-alive\r\n\r\n{\"approved\":true,\"fraud_score\":0.4}");
            assert(resp@ =~= ok_response("application/json"@, verdict(2)));
        }
        resp
    } else if fraud_count == 3 {
        let resp: &'static str =
            "HTTP/1.1 200 OK\r\nContent-Type: application/json\r\nContent-Length: 36\r\nConnection: keep-alive\r\n\r\n{\"approved\":false,\"fraud_score\":0.6}";
        proof {
            reveal_strlit("HTTP/1.1 200 OK\r\nContent-Type: application/json\r\nContent-Length: 36\r\nConnection: keep-alive\r\n\r\n{\"approved\":false,\"fraud_score\":0.6}");
            assert(resp@ =~= ok_response("application/json"@, verdict(3)));
        }
        resp
    } else if fraud_count == 4 {
        let resp: &'static str =
            "HTTP/1.1 200 OK\r\nContent-Type: application/json\r\nContent-Length: 36\r\nConnection: keep-alive\r\n\r\n{\"approved\":false,\"fraud_score\":0.8}";
        proof {
            reveal_strlit("HTTP/1.1 200 OK\r\nContent-Type: application/json\r\nContent-Length: 36\r\nConnection: keep-alive\r\n\r\n{\"approved\":false,\"fraud_score\":0.8}");
            assert(resp@ =~= ok_response("application/json"@, verdict(4)));
        }
        resp
    } else {
        let resp: &'static str =
            "HTTP/1.1 200 OK\r\nContent-Type: application/json\r\nContent-Length: 34\r\nConnection: keep-alive\r\n\r\n{\"approved\":false,\"fraud_score\":1}";
        proof {
            reveal_strlit("HTTP/1.1 200 OK\r\nContent-Type: application/json\r\nContent-Length: 34\r\nConnection: keep-alive\r\n\r\n{\"approved\":false,\"fraud_score\":1}");
            assert(resp@ =~= ok_response("application/json"@, verdict(5)));
        }
        resp
    }
}

/// The text of the answer that there is no such thing.
pub open spec fn not_found_text() -> Seq<char> {
    "HTTP/1.1 404 Not Found\r\nContent-Length: 0\r\nConnection: keep-alive\r\n\r\n"@
}

/// The answer that there is no such thing.
pub fn not_found_response() -> (resp: &'static str)
    ensures
        resp@ == not_found_text(),
{
    "HTTP/1.1 404 Not Found\r\nContent-Length: 0\r\nConnection: keep-alive\r\n\r\n"
}

} // verus!
