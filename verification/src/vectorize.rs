//! The dimensions of a transaction's vector.
//!
//! What is counted or decided is worked out here. What is measured, the amounts and
//! the distances, is named by its dimension and left to the caller.

use crate::dataset::{padded, DIMS, PADDED_DIMS, PADDING};
use crate::timestamp::{
    datetime_is_readable, is_datetime, is_timestamp, parse_datetime, seconds_apart,
    seconds_between, text_bytes, timestamp_is_readable, utc_hour, utc_weekday,
};
use vstd::prelude::*;

verus! {

/// A request to score, without its amounts and distances.
pub struct TransactionPayload {
    pub transaction: Transaction,
    pub customer: Customer,
    pub merchant: Merchant,
    pub terminal: Terminal,
    pub last_transaction: Option<LastTransaction>,
}

pub struct Transaction {
    pub requested_at: String,
}

pub struct Customer {
    pub known_merchants: Vec<String>,
}

pub struct Merchant {
    pub id: String,
    pub mcc: String,
}

pub struct Terminal {
    pub is_online: bool,
    pub card_present: bool,
}

pub struct LastTransaction {
    pub timestamp: String,
}

/// What a dimension of the vector of a transaction says. Where it is measured, the
/// amounts and distances of the request give the measure.
#[derive(Clone, Copy)]
pub enum Dimension {
    /// The amount of the transaction.
    Amount,
    /// The number of installments.
    Installments,
    /// The amount over the average of the customer.
    AmountVsAverage,
    /// The hour of the request, in UTC.
    Hour(u32),
    /// The weekday of the request, in UTC: Monday is 0.
    Weekday(u32),
    /// The seconds between the last transaction and the request.
    SecondsSinceLast(i64),
    /// The distance from the last transaction.
    KmFromLast,
    /// There is nothing to say, since there was no last transaction.
    Missing,
    /// The distance from the home of the customer.
    KmFromHome,
    /// The number of transactions of the customer in a day.
    TransactionCount,
    /// Yes or no.
    Flag(bool),
    /// The risk of the kind of merchant: its place in the table of kinds, and
    /// `None` for a kind that is not there.
    MccRisk(Option<usize>),
    /// The average amount of the merchant.
    MerchantAverage,
}

/// The UTF-8 bytes of a string.
pub open spec fn string_bytes(s: String) -> Seq<u8> {
    vstd::utf8::encode_utf8(s@)
}

impl TransactionPayload {
    /// The times of the request can be read.
    pub open spec fn is_readable(&self) -> bool {
        let at = string_bytes(self.transaction.requested_at);
        &&& is_datetime(at)
        &&& self.last_transaction matches Some(last) ==> is_timestamp(at) && is_timestamp(
            string_bytes(last.timestamp),
        )
    }

    /// Whether the times of the request can be read.
    pub fn times_are_readable(&self) -> (readable: bool)
        ensures
            readable == self.is_readable(),
    {
        let at: &str = self.transaction.requested_at.as_str();
        datetime_is_readable(at) && match &self.last_transaction {
            Some(last) => timestamp_is_readable(at) && timestamp_is_readable(
                last.timestamp.as_str(),
            ),
            None => true,
        }
    }
}

/// Whether `i` is the first place of a text among others.
pub open spec fn is_place_of(texts: Seq<String>, text: Seq<char>, i: int) -> bool {
    &&& 0 <= i < texts.len()
    &&& texts[i]@ == text
    &&& forall|j: int| 0 <= j < i ==> (#[trigger] texts[j])@ != text
}

/// The first place of a text among others.
pub open spec fn place_of(texts: Seq<String>, text: Seq<char>) -> Option<usize> {
    if exists|i: int| is_place_of(texts, text, i) {
        Some((choose|i: int| is_place_of(texts, text, i)) as usize)
    } else {
        None
    }
}

/// Finds the first place of a text among others.
pub fn find_place(texts: &Vec<String>, text: &String) -> (place: Option<usize>)
    ensures
        place == place_of(texts@, text@),
        match place {
            Some(i) => is_place_of(texts@, text@, i as int),
            None => forall|i: int|
                #![trigger texts@[i]]
                0 <= i < texts@.len() ==> texts@[i]@ != text@,
        },
{
    let mut i: usize = 0;
    while i < texts.len()
        invariant
            i <= texts@.len(),
            forall|j: int| 0 <= j < i ==> (#[trigger] texts@[j])@ != text@,
        decreases texts@.len() - i,
    {
        if texts[i] == *text {
            proof {
                assert(is_place_of(texts@, text@, i as int));
                let k = choose|k: int| is_place_of(texts@, text@, k);
                assert(is_place_of(texts@, text@, k));
                assert(!(k < i) && !(i < k));
            }
            return Some(i);
        }
        i += 1;
    }
    None
}

/// The dimensions of a request, given the table of kinds of merchant.
pub open spec fn dimensions(payload: TransactionPayload, mccs: Seq<String>) -> Seq<Dimension> {
    let at = string_bytes(payload.transaction.requested_at);
    seq![
        Dimension::Amount,
        Dimension::Installments,
        Dimension::AmountVsAverage,
        Dimension::Hour(utc_hour(at) as u32),
        Dimension::Weekday(utc_weekday(at) as u32),
        match payload.last_transaction {
            Some(last) => Dimension::SecondsSinceLast(
                seconds_apart(string_bytes(last.timestamp), at) as i64,
            ),
            None => Dimension::Missing,
        },
        match payload.last_transaction {
            Some(last) => Dimension::KmFromLast,
            None => Dimension::Missing,
        },
        Dimension::KmFromHome,
        Dimension::TransactionCount,
        Dimension::Flag(payload.terminal.is_online),
        Dimension::Flag(payload.terminal.card_present),
        Dimension::Flag(
            place_of(payload.customer.known_merchants@, payload.merchant.id@) is None,
        ),
        Dimension::MccRisk(place_of(mccs, payload.merchant.mcc@)),
        Dimension::MerchantAverage,
    ]
}

/// Lays out the dimensions of a request, given the table of kinds of merchant.
pub fn vectorize(payload: &TransactionPayload, mccs: &Vec<String>) -> (dims: [Dimension; DIMS])
    requires
        payload.is_readable(),
    ensures
        dims@ == dimensions(*payload, mccs@),
{
    let at: &str = payload.transaction.requested_at.as_str();
    let (hour, dow): (u32, u32) = parse_datetime(at);
    let (since_last, km_from_last): (Dimension, Dimension) = match &payload.last_transaction {
        Some(last) => (
            Dimension::SecondsSinceLast(seconds_between(last.timestamp.as_str(), at)),
            Dimension::KmFromLast,
        ),
        None => (Dimension::Missing, Dimension::Missing),
    };
    let known: Option<usize> = find_place(
        &payload.customer.known_merchants,
        &payload.merchant.id,
    );
    let dims: [Dimension; DIMS] = [
        Dimension::Amount,
        Dimension::Installments,
        Dimension::AmountVsAverage,
        Dimension::Hour(hour),
        Dimension::Weekday(dow),
        since_last,
        km_from_last,
        Dimension::KmFromHome,
        Dimension::TransactionCount,
        Dimension::Flag(payload.terminal.is_online),
        Dimension::Flag(payload.terminal.card_present),
        Dimension::Flag(known.is_none()),
        Dimension::MccRisk(find_place(mccs, &payload.merchant.mcc)),
        Dimension::MerchantAverage,
    ];
    assert(dims@ =~= dimensions(*payload, mccs@));
    dims
}

/// Pads the quantized dimensions of a query as the reference vectors are padded.
pub fn padded_query(dims: &[u8; DIMS]) -> (query: [u8; PADDED_DIMS])
    ensures
        query@ == padded(dims@),
        forall|i: int| 0 <= i < 14 ==> query@[i] == dims@[i],
        query@[14] == 128,
        query@[15] == 128,
{
    let mut query: [u8; PADDED_DIMS] = [PADDING; PADDED_DIMS];
    let mut i: usize = 0;
    while i < DIMS
        invariant
            i <= DIMS,
            forall|j: int| 0 <= j < i ==> query@[j] == dims@[j],
            forall|j: int| i <= j < PADDED_DIMS ==> query@[j] == PADDING,
        decreases DIMS - i,
    {
        query[i] = dims[i];
        i += 1;
    }
    assert(query@ =~= padded(dims@));
    query
}

/// What is measured and not decided: the amounts, the counts and the distances have
/// their places in the vector whatever the request.
pub proof fn measured_dimensions_have_their_places(
    payload: &TransactionPayload,
    mccs: &Vec<String>,
    dims: [Dimension; DIMS],
)
    requires
        call_ensures(vectorize, (payload, mccs), dims),
    ensures
        dims@.len() == 14,
        dims@[0] is Amount,
        dims@[1] is Installments,
        dims@[2] is AmountVsAverage,
        dims@[7] is KmFromHome,
        dims@[8] is TransactionCount,
        dims@[13] is MerchantAverage,
{
}

/// The flags: 9 says whether the terminal is online, 10 whether the card is present, and
/// 11 whether the merchant is none of those that the customer knows.
pub proof fn flags_say_what_the_request_says(
    payload: &TransactionPayload,
    mccs: &Vec<String>,
    dims: [Dimension; DIMS],
)
    requires
        call_ensures(vectorize, (payload, mccs), dims),
    ensures
        dims@[9] matches Dimension::Flag(yes) && (yes <==> payload.terminal.is_online),
        dims@[10] matches Dimension::Flag(yes) && (yes <==> payload.terminal.card_present),
        dims@[11] matches Dimension::Flag(yes) && (yes <==> forall|i: int|
            0 <= i < payload.customer.known_merchants@.len()
                ==> (#[trigger] payload.customer.known_merchants@[i])@ != payload.merchant.id@),
{
    lemma_place_of(payload.customer.known_merchants@, payload.merchant.id@);
}

/// The risk in 12 is that of the first kind in the table that is the kind of the
/// merchant, and there is none exactly if the table does not hold the kind.
pub proof fn risk_is_that_of_the_kind(
    payload: &TransactionPayload,
    mccs: &Vec<String>,
    dims: [Dimension; DIMS],
)
    requires
        call_ensures(vectorize, (payload, mccs), dims),
    ensures
        match dims@[12] {
            Dimension::MccRisk(Some(i)) => {
                &&& i < mccs@.len()
                &&& mccs@[i as int]@ == payload.merchant.mcc@
                &&& forall|j: int|
                    0 <= j < i ==> (#[trigger] mccs@[j])@ != payload.merchant.mcc@
            },
            Dimension::MccRisk(None) => forall|j: int|
                0 <= j < mccs@.len() ==> (#[trigger] mccs@[j])@ != payload.merchant.mcc@,
            _ => false,
        },
{
    assert(mccs@.len() == mccs.len());
    lemma_place_of(mccs@, payload.merchant.mcc@);
}

/// The hour in 3 and the weekday in 4 are those that `parse_datetime` reads from the
/// time of the request. The time in 5 is that between the last transaction and the
/// request, and 6 asks for its distance; where there was no last transaction both are
/// missing.
pub proof fn times_say_when(
    payload: &TransactionPayload,
    mccs: &Vec<String>,
    dims: [Dimension; DIMS],
    at: &str,
    read: (u32, u32),
    last: &str,
    between: i64,
)
    requires
        call_ensures(vectorize, (payload, mccs), dims),
        at@ == payload.transaction.requested_at@,
        call_ensures(parse_datetime, (at,), read),
        payload.last_transaction matches Some(tx) ==> last@ == tx.timestamp@,
        payload.last_transaction is Some ==> call_ensures(seconds_between, (last, at), between),
    ensures
        dims@[3] matches Dimension::Hour(hour) && hour == read.0,
        dims@[4] matches Dimension::Weekday(dow) && dow == read.1,
        payload.last_transaction is Some ==> {
            &&& dims@[5] matches Dimension::SecondsSinceLast(seconds) && seconds == between
            &&& dims@[6] is KmFromLast
        },
        payload.last_transaction is None ==> dims@[5] is Missing && dims@[6] is Missing,
{
}

/// A first place is found exactly if the text is among the others.
proof fn lemma_place_of(texts: Seq<String>, text: Seq<char>)
    ensures
        match place_of(texts, text) {
            Some(i) => texts.len() <= usize::MAX ==> is_place_of(texts, text, i as int),
            None => forall|i: int| 0 <= i < texts.len() ==> (#[trigger] texts[i])@ != text,
        },
        place_of(texts, text) is None <==> forall|i: int|
            0 <= i < texts.len() ==> (#[trigger] texts[i])@ != text,
{
    assert forall|i: int| 0 <= i < texts.len() && (#[trigger] texts[i])@ == text implies place_of(
        texts,
        text,
    ) is Some by {
        lemma_first_place(texts, text, i);
    }
}

/// Where a text is among others, there is a first place of it.
proof fn lemma_first_place(texts: Seq<String>, text: Seq<char>, i: int)
    requires
        0 <= i < texts.len(),
        texts[i]@ == text,
    ensures
        exists|k: int| is_place_of(texts, text, k),
    decreases i,
{
    if exists|j: int| 0 <= j < i && (#[trigger] texts[j])@ == text {
        let j = choose|j: int| 0 <= j < i && (#[trigger] texts[j])@ == text;
        lemma_first_place(texts, text, j);
    } else {
        assert(is_place_of(texts, text, i));
    }
}

/// Requests that differ in one thing only, whether the terminal is online, have vectors
/// that differ in 9 and nowhere else.
pub proof fn being_online_counts_in_its_place(
    p: &TransactionPayload,
    q: &TransactionPayload,
    mccs: &Vec<String>,
    d: [Dimension; DIMS],
    e: [Dimension; DIMS],
)
    requires
        q.transaction == p.transaction && q.customer == p.customer && q.merchant == p.merchant,
        q.last_transaction == p.last_transaction,
        q.terminal.card_present == p.terminal.card_present,
        q.terminal.is_online != p.terminal.is_online,
        call_ensures(vectorize, (p, mccs), d),
        call_ensures(vectorize, (q, mccs), e),
    ensures
        d@[9] != e@[9],
        forall|i: int| 0 <= i < 14 && i != 9 ==> d@[i] == e@[i],
{
}

/// Requests that differ in one thing only, whether the card is present, have vectors
/// that differ in 10 and nowhere else.
pub proof fn card_presence_counts_in_its_place(
    p: &TransactionPayload,
    q: &TransactionPayload,
    mccs: &Vec<String>,
    d: [Dimension; DIMS],
    e: [Dimension; DIMS],
)
    requires
        q.transaction == p.transaction && q.customer == p.customer && q.merchant == p.merchant,
        q.last_transaction == p.last_transaction,
        q.terminal.is_online == p.terminal.is_online,
        q.terminal.card_present != p.terminal.card_present,
        call_ensures(vectorize, (p, mccs), d),
        call_ensures(vectorize, (q, mccs), e),
    ensures
        d@[10] != e@[10],
        forall|i: int| 0 <= i < 14 && i != 10 ==> d@[i] == e@[i],
{
}

/// Requests that differ only in the merchant, of one kind, and in the merchants that the
/// customer knows have vectors that agree but for 11.
pub proof fn known_merchants_count_in_their_place(
    p: &TransactionPayload,
    q: &TransactionPayload,
    mccs: &Vec<String>,
    d: [Dimension; DIMS],
    e: [Dimension; DIMS],
)
    requires
        q.transaction == p.transaction && q.terminal == p.terminal,
        q.last_transaction == p.last_transaction,
        q.merchant.mcc@ == p.merchant.mcc@,
        call_ensures(vectorize, (p, mccs), d),
        call_ensures(vectorize, (q, mccs), e),
    ensures
        forall|i: int| 0 <= i < 14 && i != 11 ==> d@[i] == e@[i],
        d@[11] == e@[11] <==> (p.customer.known_merchants@.map_values(
            |s: String| s@,
        ).contains(p.merchant.id@) <==> q.customer.known_merchants@.map_values(
            |s: String| s@,
        ).contains(q.merchant.id@)),
{
    lemma_known(p.customer.known_merchants@, p.merchant.id@);
    lemma_known(q.customer.known_merchants@, q.merchant.id@);
    flags_say_what_the_request_says(p, mccs, d);
    flags_say_what_the_request_says(q, mccs, e);
}

/// A text has a place among others exactly if it is one of them.
proof fn lemma_known(texts: Seq<String>, text: Seq<char>)
    ensures
        texts.map_values(|s: String| s@).contains(text) <==> place_of(texts, text) is Some,
{
    lemma_place_of(texts, text);
    let views = texts.map_values(|s: String| s@);
    assert(forall|i: int| 0 <= i < texts.len() ==> views[i] == (#[trigger] texts[i])@);
    if place_of(texts, text) is Some {
        let i = choose|i: int| 0 <= i < texts.len() && (#[trigger] texts[i])@ == text;
        assert(views[i] == text);
    }
}

/// Requests that differ only in the kind of the merchant have vectors that agree but for
/// 12.
pub proof fn the_kind_of_merchant_counts_in_its_place(
    p: &TransactionPayload,
    q: &TransactionPayload,
    mccs: &Vec<String>,
    d: [Dimension; DIMS],
    e: [Dimension; DIMS],
)
    requires
        q.transaction == p.transaction && q.terminal == p.terminal && q.customer == p.customer,
        q.last_transaction == p.last_transaction,
        q.merchant.id == p.merchant.id,
        call_ensures(vectorize, (p, mccs), d),
        call_ensures(vectorize, (q, mccs), e),
    ensures
        forall|i: int| 0 <= i < 14 && i != 12 ==> d@[i] == e@[i],
{
}

/// Every request whose time has an hour, and whose times have seconds if there was a
/// last transaction, can be turned into a vector, and no other passes for readable.
pub proof fn which_requests_have_a_vector(
    payload: &TransactionPayload,
    mccs: &Vec<String>,
    readable: bool,
    at: &str,
    has_hour: bool,
    has_seconds: bool,
    last: &str,
    last_has_seconds: bool,
)
    requires
        call_ensures(TransactionPayload::times_are_readable, (payload,), readable),
        at@ == payload.transaction.requested_at@,
        call_ensures(datetime_is_readable, (at,), has_hour),
        call_ensures(timestamp_is_readable, (at,), has_seconds),
        payload.last_transaction matches Some(tx) ==> last@ == tx.timestamp@,
        call_ensures(timestamp_is_readable, (last,), last_has_seconds),
    ensures
        readable <==> has_hour && (payload.last_transaction is Some ==> has_seconds
            && last_has_seconds),
        readable ==> call_requires(vectorize, (payload, mccs)),
{
}

/// A text is found at its first place among others, and not found exactly if it is not
/// there.
pub proof fn texts_are_found_at_their_first_place(
    texts: &Vec<String>,
    text: &String,
    place: Option<usize>,
)
    requires
        call_ensures(find_place, (texts, text), place),
    ensures
        match place {
            Some(i) => {
                &&& i < texts@.len()
                &&& texts@[i as int]@ == text@
                &&& forall|j: int| 0 <= j < i ==> (#[trigger] texts@[j])@ != text@
            },
            None => forall|j: int| 0 <= j < texts@.len() ==> (#[trigger] texts@[j])@ != text@,
        },
{
}

/// A query is its 14 dimensions as they are, followed by two bytes of 128.
pub proof fn queries_are_padded(dims: &[u8; DIMS], query: [u8; PADDED_DIMS])
    requires
        call_ensures(padded_query, (dims,), query),
    ensures
        query@.len() == 16,
        query@ == dims@ + seq![128u8, 128u8],
{
    assert(query@ =~= dims@ + seq![128u8, 128u8]);
}

} // verus!
