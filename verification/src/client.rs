//! What a client asks of a server, and what it does with the answers.

use crate::json;
use crate::json::Json;
use crate::order;
use crate::server::client_service as service;
use crate::server::client_service::{
    GetResponse, GetSequenceResponse, GetSetResponse, InsertIntoSequenceRequest, PutRequest,
    PutResponse,
};
use serde_json::Value;
use vstd::prelude::*;
use vstd::string::*;

verus! {

/// The timestamp of a client's next write, and what the client has to remember. `prev` is
/// what it remembered and `now` is the time in microseconds. The clock is followed where
/// it has moved on; where it has not, the next number is taken. The last number there is
/// stays the last.
pub open spec fn stamp_after(prev: u64, now: u64) -> (u64, u64) {
    if now > prev {
        (now, now)
    } else if prev < u64::MAX {
        ((prev + 1) as u64, (prev + 1) as u64)
    } else {
        (prev, prev)
    }
}

/// The timestamp of a client's next write, and what the client has to remember.
pub fn next_timestamp(prev: u64, now: u64) -> (r: (u64, u64))
    ensures
        r == stamp_after(prev, now),
{
    if now > prev {
        (now, now)
    } else if prev < u64::MAX {
        (prev + 1, prev + 1)
    } else {
        (prev, prev)
    }
}

/// The request to write a document into the register of a key, or the complaint about a
/// document that has no JSON text.
pub fn put_request(
    namespace: &str,
    key: &str,
    value: &Value,
    node_id: &str,
    timestamp: u64,
) -> (r: Result<PutRequest, String>)
    ensures
        match json::json_text(json::json_view(*value)) {
            Ok(text) => r matches Ok(req) && {
                &&& req.namespace@ == namespace@
                &&& req.key@ == key@
                &&& req.value_json@ == text
                &&& req.node_id@ == node_id@
                &&& req.timestamp == timestamp
            },
            Err(complaint) => r matches Err(text) && text@ == complaint,
        },
        json::is_plain(json::json_view(*value), 100) ==> r is Ok,
        r matches Ok(req) ==> service::reads_as(req.value_json@, json::json_view(*value)),
{
    put_request_with(namespace, key, json::print(value), node_id, timestamp)
}

/// The request to write a document into the register of a key, given what the printer
/// made of the document.
pub fn put_request_with(
    namespace: &str,
    key: &str,
    printed: Result<String, String>,
    node_id: &str,
    timestamp: u64,
) -> (r: Result<PutRequest, String>)
    ensures
        match printed {
            Ok(text) => r matches Ok(req) && {
                &&& req.namespace@ == namespace@
                &&& req.key@ == key@
                &&& req.value_json@ == text@
                &&& req.node_id@ == node_id@
                &&& req.timestamp == timestamp
            },
            Err(complaint) => r matches Err(text) && text@ == complaint@,
        },
{
    match printed {
        Ok(value_json) => Ok(
            PutRequest {
                namespace: namespace.to_owned(),
                key: key.to_owned(),
                value_json,
                node_id: node_id.to_owned(),
                timestamp,
            },
        ),
        Err(complaint) => Err(complaint),
    }
}

/// The request to insert a document into the sequence of a key, or the complaint about a
/// document that has no JSON text.
pub fn insert_request(
    namespace: &str,
    key: &str,
    position: u32,
    value: &Value,
    node_id: &str,
    timestamp: u64,
) -> (r: Result<InsertIntoSequenceRequest, String>)
    ensures
        match json::json_text(json::json_view(*value)) {
            Ok(text) => r matches Ok(req) && {
                &&& req.namespace@ == namespace@
                &&& req.key@ == key@
                &&& req.position == position
                &&& req.value_json@ == text
                &&& req.node_id@ == node_id@
                &&& req.timestamp == timestamp
            },
            Err(complaint) => r matches Err(text) && text@ == complaint,
        },
        json::is_plain(json::json_view(*value), 100) ==> r is Ok,
        r matches Ok(req) ==> service::reads_as(req.value_json@, json::json_view(*value)),
{
    insert_request_with(namespace, key, position, json::print(value), node_id, timestamp)
}

/// The request to insert a document into the sequence of a key, given what the printer
/// made of the document.
pub fn insert_request_with(
    namespace: &str,
    key: &str,
    position: u32,
    printed: Result<String, String>,
    node_id: &str,
    timestamp: u64,
) -> (r: Result<InsertIntoSequenceRequest, String>)
    ensures
        match printed {
            Ok(text) => r matches Ok(req) && {
                &&& req.namespace@ == namespace@
                &&& req.key@ == key@
                &&& req.position == position
                &&& req.value_json@ == text@
                &&& req.node_id@ == node_id@
                &&& req.timestamp == timestamp
            },
            Err(complaint) => r matches Err(text) && text@ == complaint@,
        },
{
    match printed {
        Ok(value_json) => Ok(
            InsertIntoSequenceRequest {
                namespace: namespace.to_owned(),
                key: key.to_owned(),
                position,
                value_json,
                node_id: node_id.to_owned(),
                timestamp,
            },
        ),
        Err(complaint) => Err(complaint),
    }
}

/// The complaint about a server that is not the leader.
pub open spec fn not_leader(hint: Seq<char>) -> Seq<char> {
    "not leader, try: "@ + hint
}

/// What a write of a register came to: whether it was taken, or which server to turn to.
pub fn put_outcome(resp: PutResponse) -> (r: Result<bool, String>)
    ensures
        if !resp.success && resp.leader_hint@.len() > 0 {
            r matches Err(text) && text@ == not_leader(resp.leader_hint@)
        } else {
            r == Ok::<bool, String>(resp.success)
        },
{
    if !resp.success && resp.leader_hint.as_str().unicode_len() > 0 {
        let mut text = "not leader, try: ".to_owned();
        text.append(resp.leader_hint.as_str());
        Err(text)
    } else {
        Ok(resp.success)
    }
}

/// The complaint about an answer that is not JSON.
pub open spec fn not_json(complaint: Seq<char>) -> Seq<char> {
    "json parse error: "@ + complaint
}

/// The value that a read of a register gave, if there is one.
pub fn get_outcome(resp: GetResponse) -> (r: Result<Option<Value>, String>)
    ensures
        if !resp.found {
            r matches Ok(None)
        } else {
            match json::json_parse(resp.value_json@) {
                Ok(value) => r matches Ok(Some(v)) && json::json_view(v) == value,
                Err(complaint) => r matches Err(text) && text@ == not_json(complaint),
            }
        },
{
    if resp.found {
        get_parsed(json::parse(resp.value_json.as_str()))
    } else {
        Ok(None)
    }
}

/// The value that a read of a register gave, given what the parser made of the text.
pub fn get_parsed(parsed: Result<Value, String>) -> (r: Result<Option<Value>, String>)
    ensures
        match parsed {
            Ok(value) => r matches Ok(Some(v)) && v == value,
            Err(complaint) => r matches Err(text) && text@ == not_json(complaint@),
        },
{
    match parsed {
        Ok(value) => Ok(Some(value)),
        Err(complaint) => {
            let mut text = "json parse error: ".to_owned();
            text.append(complaint.as_str());
            Err(text)
        },
    }
}

/// The elements that a read of a set gave, if there is one.
pub fn get_set_outcome(resp: GetSetResponse) -> (r: Option<Vec<String>>)
    ensures
        r == if resp.found {
            Some(resp.elements)
        } else {
            None
        },
{
    if resp.found {
        Some(resp.elements)
    } else {
        None
    }
}

/// What a list of documents holds.
pub open spec fn documents(values: Seq<Value>) -> Seq<Json> {
    Seq::new(values.len(), |i: int| json::json_view(values[i]))
}

/// What is made of a list of JSON texts: the documents, or the complaint about the first
/// text that is not JSON.
pub open spec fn parse_all(list: Seq<Seq<char>>) -> Result<Seq<Json>, Seq<char>>
    decreases list.len(),
{
    if list.len() == 0 {
        Ok(Seq::empty())
    } else {
        match parse_all(list.drop_last()) {
            Ok(front) => match json::json_parse(list.last()) {
                Ok(value) => Ok(front.push(value)),
                Err(complaint) => Err(complaint),
            },
            Err(complaint) => Err(complaint),
        }
    }
}

proof fn lemma_first_complaint_stays(list: Seq<Seq<char>>, n: int)
    requires
        0 <= n <= list.len(),
        parse_all(list.take(n)) is Err,
    ensures
        parse_all(list) == parse_all(list.take(n)),
    decreases list.len() - n,
{
    if n < list.len() {
        assert(list.take(n + 1).drop_last() =~= list.take(n));
        lemma_first_complaint_stays(list, n + 1);
    } else {
        assert(list.take(n) =~= list);
    }
}

/// Each text becomes one document: where every text is JSON there are as many documents as
/// texts, and the document at each place is what the text at that place says. Where some
/// text is not JSON, the complaint is that about the first such text.
pub proof fn law_each_text_is_one_document(list: Seq<Seq<char>>)
    ensures
        parse_all(list) is Ok <==> forall|i: int|
            0 <= i < list.len() ==> json::json_parse(#[trigger] list[i]) is Ok,
        parse_all(list) matches Ok(values) ==> {
            &&& values.len() == list.len()
            &&& forall|i: int|
                0 <= i < list.len() ==> json::json_parse(#[trigger] list[i]) == Ok::<
                    Json,
                    Seq<char>,
                >(values[i])
        },
        forall|n: int|
            0 <= n < list.len() && json::json_parse(#[trigger] list[n]) is Err && (forall|i: int|
                0 <= i < n ==> json::json_parse(#[trigger] list[i]) is Ok) ==> parse_all(list)
                == Err::<Seq<Json>, Seq<char>>(json::json_parse(list[n])->Err_0),
    decreases list.len(),
{
    if list.len() > 0 {
        let front = list.drop_last();
        law_each_text_is_one_document(front);
        assert forall|i: int| 0 <= i < front.len() implies #[trigger] front[i] == list[i] by {}
        assert(list[list.len() - 1] == list.last());
        if parse_all(list) is Ok {
            assert forall|i: int| 0 <= i < list.len() implies json::json_parse(#[trigger] list[i])
                == Ok::<Json, Seq<char>>(parse_all(list)->Ok_0[i]) by {
                if i < front.len() {
                    assert(front[i] == list[i]);
                }
            }
        } else if parse_all(front) is Err {
            assert(exists|i: int| 0 <= i < front.len() && json::json_parse(#[trigger] front[i]) is Err);
            let i = choose|i: int|
                0 <= i < front.len() && json::json_parse(#[trigger] front[i]) is Err;
            assert(json::json_parse(list[i]) is Err);
        }
        assert forall|n: int|
            0 <= n < list.len() && json::json_parse(#[trigger] list[n]) is Err && (forall|i: int|
                0 <= i < n ==> json::json_parse(#[trigger] list[i]) is Ok) implies parse_all(list)
            == Err::<Seq<Json>, Seq<char>>(json::json_parse(list[n])->Err_0) by {
            assert forall|i: int| 0 <= i < n implies json::json_parse(#[trigger] front[i]) is Ok by {
                assert(front[i] == list[i]);
            }
            if n < front.len() {
                assert(front[n] == list[n]);
            } else {
                assert(parse_all(front) is Ok);
            }
        }
    }
}

proof fn lemma_parsed_one_by_one(list: Seq<String>)
    ensures
        parse_all(order::texts(list)) is Ok <==> forall|i: int|
            0 <= i < list.len() ==> json::json_parse((#[trigger] list[i])@) is Ok,
        parse_all(order::texts(list)) matches Ok(values) ==> values.len() == list.len() && forall|
            i: int,
        |
            0 <= i < list.len() ==> json::json_parse((#[trigger] list[i])@) == Ok::<
                Json,
                Seq<char>,
            >(values[i]),
{
    let all = order::texts(list);
    law_each_text_is_one_document(all);
    assert forall|i: int| 0 <= i < list.len() implies (#[trigger] list[i])@ == all[i] by {}
    if parse_all(all) is Err {
        let i = choose|i: int| 0 <= i < all.len() && json::json_parse(#[trigger] all[i]) is Err;
        assert(list[i]@ == all[i]);
    }
}

/// The values that a read of a sequence gave, if there is one.
pub fn get_sequence_outcome(resp: GetSequenceResponse) -> (r: Result<Option<Vec<Value>>, String>)
    ensures
        if !resp.found {
            r matches Ok(None)
        } else {
            match parse_all(order::texts(resp.values_json@)) {
                Ok(values) => r matches Ok(Some(v)) && documents(v@) == values,
                Err(complaint) => r matches Err(text) && text@ == complaint,
            }
        },
        r matches Ok(Some(v)) ==> v@.len() == resp.values_json@.len() && forall|i: int|
            0 <= i < v@.len() ==> json::json_parse(resp.values_json@[i]@) == Ok::<Json, Seq<char>>(
                json::json_view(#[trigger] v@[i]),
            ),
        r is Ok <==> !resp.found || forall|i: int|
            0 <= i < resp.values_json@.len() ==> json::json_parse(
                (#[trigger] resp.values_json@[i])@,
            ) is Ok,
{
    proof {
        lemma_parsed_one_by_one(resp.values_json@);
    }
    if !resp.found {
        return Ok(None);
    }
    let ghost all = order::texts(resp.values_json@);
    let n = resp.values_json.len();
    let mut values: Vec<Value> = Vec::new();
    let mut i: usize = 0;
    proof {
        assert(all.take(0) =~= Seq::<Seq<char>>::empty());
        assert(documents(values@) =~= Seq::<Json>::empty());
    }
    while i < n
        invariant
            i <= n == resp.values_json@.len(),
            resp.found,
            all == order::texts(resp.values_json@),
            parse_all(all.take(i as int)) == Ok::<Seq<Json>, Seq<char>>(documents(values@)),
        decreases n - i,
    {
        let ghost before = documents(values@);
        proof {
            assert(all.take(i + 1).drop_last() =~= all.take(i as int));
            assert(all.take(i + 1).last() == resp.values_json@[i as int]@);
        }
        match json::parse(resp.values_json[i].as_str()) {
            Ok(value) => {
                values.push(value);
                assert(documents(values@) =~= before.push(json::json_view(value)));
            },
            Err(complaint) => {
                proof {
                    lemma_first_complaint_stays(all, i + 1);
                }
                return Err(complaint);
            },
        }
        i = i + 1;
    }
    assert(all.take(n as int) =~= all);
    Ok(Some(values))
}

/// Of two timestamps of a client the later is the greater, and none falls behind what the
/// client remembered or the clock. The client can give no more than the last number.
pub proof fn law_timestamps_grow(prev: u64, now: u64, later: u64)
    requires
        stamp_after(prev, now).0 < u64::MAX,
    ensures
        ({
            let first = stamp_after(prev, now);
            let second = stamp_after(first.1, later);
            &&& first.0 > prev && first.0 >= now
            &&& second.0 > first.0 && second.0 >= later
        }),
{
}

/// The next timestamp is the clock where that has moved on, and else the number after the
/// last one, as long as there is one. It is what the client remembers.
pub proof fn law_timestamp_is_the_clock_or_the_next_number(prev: u64, now: u64)
    ensures
        stamp_after(prev, now).0 == stamp_after(prev, now).1,
        now > prev ==> stamp_after(prev, now).0 == now,
        now <= prev && prev < u64::MAX ==> stamp_after(prev, now).0 == prev + 1,
        prev == u64::MAX ==> stamp_after(prev, now).0 == prev,
{
}

/// Complaints carry the hint of the server and the words of the parser in full.
pub proof fn law_complaints_are_passed_on_in_full(text: Seq<char>)
    ensures
        not_leader(text).len() == 17 + text.len(),
        not_leader(text).take(17) == "not leader, try: "@,
        not_leader(text).skip(17) == text,
        not_json(text).len() == 18 + text.len(),
        not_json(text).take(18) == "json parse error: "@,
        not_json(text).skip(18) == text,
{
    reveal_strlit("not leader, try: ");
    reveal_strlit("json parse error: ");
    assert(not_leader(text).take(17) =~= "not leader, try: "@);
    assert(not_leader(text).skip(17) =~= text);
    assert(not_json(text).take(18) =~= "json parse error: "@);
    assert(not_json(text).skip(18) =~= text);
}

} // verus!
