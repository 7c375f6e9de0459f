//! What requests ask for, and how they are answered.

use crate::matchmaker::{EnqueueError, Matchmaker, QueueRequest};
use crate::metrics::MetricsSnapshot;
use crate::text::{
    digits_value, is_digit, law_numbers_are_read, law_other_text_is_no_number,
    law_prefix_is_taken_off, number_in, parse_u64_at, same_text, to_chars, trim_start, trimmed,
};
use vstd::prelude::*;
use vstd::utf8::encode_utf8;

verus! {

/// The method of a request.
#[derive(Clone, Copy, Debug, PartialEq, Eq, Structural)]
pub enum Method {
    Get,
    Post,
    Delete,
    Other,
}

/// What a request asks for.
#[derive(Clone, Copy, Debug, PartialEq, Eq, Structural)]
pub enum Route {
    /// To queue the player in the body.
    Enqueue,
    /// To take a player out of the queue.
    Remove(u64),
    /// To take a player out of the queue whose id is no number.
    RemoveUnreadable,
    /// To see the metrics.
    Metrics,
    /// Something that is not offered.
    Unknown,
}

/// Why a request is refused.
#[derive(Clone, Copy, Debug, PartialEq, Eq, Structural)]
pub enum Refusal {
    InvalidPayload,
    InvalidId,
    NotFound,
    ServerBusy,
    Enqueue(EnqueueError),
}

/// The answer to a request that is not refused.
#[derive(Clone, Copy, Debug, PartialEq, Eq, Structural)]
pub enum Reply {
    Queued(usize),
    Removed(bool),
    Metrics(MetricsSnapshot),
}

impl EnqueueError {
    /// The status code for the error.
    pub open spec fn code(self) -> u16 {
        match self {
            EnqueueError::DuplicateId => 409,
            EnqueueError::InvalidRating => 400,
        }
    }

    /// The text for the error.
    pub open spec fn text(self) -> Seq<char> {
        match self {
            EnqueueError::DuplicateId => "player id already queued"@,
            EnqueueError::InvalidRating => "skill_rating must be a finite number"@,
        }
    }

    /// The status code for the error.
    pub fn status(&self) -> (status: u16)
        ensures
            status == self.code(),
    {
        match self {
            EnqueueError::DuplicateId => 409,
            EnqueueError::InvalidRating => 400,
        }
    }

    /// The text for the error.
    pub fn message(&self) -> (message: &'static str)
        ensures
            message@ == self.text(),
    {
        match self {
            EnqueueError::DuplicateId => "player id already queued",
            EnqueueError::InvalidRating => "skill_rating must be a finite number",
        }
    }
}

impl Refusal {
    /// The status code for the refusal.
    pub open spec fn code(self) -> u16 {
        match self {
            Refusal::InvalidPayload => 400,
            Refusal::InvalidId => 400,
            Refusal::NotFound => 404,
            Refusal::ServerBusy => 503,
            Refusal::Enqueue(err) => err.code(),
        }
    }

    /// The text for the refusal.
    pub open spec fn text(self) -> Seq<char> {
        match self {
            Refusal::InvalidPayload => "invalid JSON payload"@,
            Refusal::InvalidId => "invalid id"@,
            Refusal::NotFound => "not found"@,
            Refusal::ServerBusy => "server busy"@,
            Refusal::Enqueue(err) => err.text(),
        }
    }

    /// The status code for the refusal.
    pub fn status(&self) -> (status: u16)
        ensures
            status == self.code(),
    {
        match self {
            Refusal::InvalidPayload => 400,
            Refusal::InvalidId => 400,
            Refusal::NotFound => 404,
            Refusal::ServerBusy => 503,
            Refusal::Enqueue(err) => err.status(),
        }
    }

    /// The text for the refusal.
    pub fn message(&self) -> (message: &'static str)
        ensures
            message@ == self.text(),
    {
        match self {
            Refusal::InvalidPayload => "invalid JSON payload",
            Refusal::InvalidId => "invalid id",
            Refusal::NotFound => "not found",
            Refusal::ServerBusy => "server busy",
            Refusal::Enqueue(err) => err.message(),
        }
    }
}

/// What a request asks for.
pub open spec fn route_of(method: Method, url: Seq<char>) -> Route {
    match method {
        Method::Post => if url == "/queue"@ {
            Route::Enqueue
        } else {
            Route::Unknown
        },
        Method::Delete => if "/queue/"@.is_prefix_of(url) {
            match number_in(trimmed(url, "/queue/"@), u64::MAX as int) {
                Some(id) => Route::Remove(id as u64),
                None => Route::RemoveUnreadable,
            }
        } else {
            Route::Unknown
        },
        Method::Get => if url == "/metrics"@ {
            Route::Metrics
        } else {
            Route::Unknown
        },
        Method::Other => Route::Unknown,
    }
}

/// What a request asks for.
pub fn route(method: Method, url: &str) -> (route: Route)
    ensures
        route == route_of(method, url@),
{
    match method {
        Method::Post => if same_text(url, "/queue") {
            Route::Enqueue
        } else {
            Route::Unknown
        },
        Method::Delete => {
            let chars = to_chars(url);
            let prefix = to_chars("/queue/");
            proof {
                reveal_strlit("/queue/");
            }
            let at: usize = trim_start(&chars, &prefix);
            if at == 0 {
                return Route::Unknown;
            }
            match parse_u64_at(&chars, at) {
                Some(id) => Route::Remove(id),
                None => Route::RemoveUnreadable,
            }
        },
        Method::Get => if same_text(url, "/metrics") {
            Route::Metrics
        } else {
            Route::Unknown
        },
        Method::Other => Route::Unknown,
    }
}

impl Matchmaker {
    /// Answers a request. Where it asks to queue a player, `payload` is what
    /// its body says, or `None` where the body cannot be read as a player.
    pub fn answer(&mut self, route: Route, payload: Option<QueueRequest>, now: u64) -> (answer: Result<
        Reply,
        Refusal,
    >)
        requires
            old(self).wf(),
            route is Enqueue ==> old(self)@.metrics.total_players_queued < u64::MAX,
        ensures
            final(self).wf(),
            answer is Err ==> final(self)@ == old(self)@ && final(self).same_lists(*old(self)),
            match route {
                Route::Enqueue => match payload {
                    Some(req) => if !req.skill_rating.finite() {
                        answer == Err::<Reply, Refusal>(
                            Refusal::Enqueue(EnqueueError::InvalidRating),
                        )
                    } else if old(self)@.queue.contains_key(req.id) {
                        answer == Err::<Reply, Refusal>(Refusal::Enqueue(EnqueueError::DuplicateId))
                    } else {
                        &&& final(self)@ == old(self)@.joined(
                            req.id,
                            req.skill_rating,
                            req.ping_region@,
                            now,
                        )
                        &&& final(self).lists_with(
                            *old(self),
                            old(self)@.entry_of(req.id, req.skill_rating, req.ping_region@, now),
                        )
                        &&& answer == Ok::<Reply, Refusal>(
                            Reply::Queued(final(self)@.queue.len() as usize),
                        )
                    },
                    None => answer == Err::<Reply, Refusal>(Refusal::InvalidPayload),
                },
                Route::Remove(id) => {
                    let queued = old(self)@.queue.contains_key(id);
                    &&& answer == Ok::<Reply, Refusal>(Reply::Removed(queued))
                    &&& final(self)@ == if queued {
                        old(self)@.left(id)
                    } else {
                        old(self)@
                    }
                    &&& if queued {
                        final(self).lists_without(*old(self), seq![id])
                    } else {
                        final(self).same_lists(*old(self))
                    }
                },
                Route::RemoveUnreadable => answer == Err::<Reply, Refusal>(Refusal::InvalidId),
                Route::Metrics => {
                    &&& answer == Ok::<Reply, Refusal>(Reply::Metrics(old(self)@.metrics.report()))
                    &&& final(self)@ == old(self)@
                    &&& final(self).same_lists(*old(self))
                },
                Route::Unknown => answer == Err::<Reply, Refusal>(Refusal::NotFound),
            },
    {
        match route {
            Route::Enqueue => match payload {
                Some(req) => match self.enqueue(req, now) {
                    Ok(position) => Ok(Reply::Queued(position)),
                    Err(err) => Err(Refusal::Enqueue(err)),
                },
                None => Err(Refusal::InvalidPayload),
            },
            Route::Remove(id) => Ok(Reply::Removed(self.remove(id))),
            Route::RemoveUnreadable => Err(Refusal::InvalidId),
            Route::Metrics => Ok(Reply::Metrics(self.metrics_snapshot())),
            Route::Unknown => Err(Refusal::NotFound),
        }
    }
}

/// A number in decimal digits, as bytes.
pub open spec fn decimal(n: nat) -> Seq<u8>
    decreases n,
{
    if n < 10 {
        seq![(0x30 + n) as u8]
    } else {
        decimal(n / 10).push((0x30 + n % 10) as u8)
    }
}

fn push_decimal(bytes: &mut Vec<u8>, n: usize)
    ensures
        final(bytes)@ == old(bytes)@ + decimal(n as nat),
    decreases n,
{
    if n >= 10 {
        push_decimal(bytes, n / 10);
    }
    bytes.push(0x30 + (n % 10) as u8);
    assert(bytes@ =~= old(bytes)@ + decimal(n as nat));
}

fn push_text(bytes: &mut Vec<u8>, text: &str)
    ensures
        final(bytes)@ == old(bytes)@ + encode_utf8(text@),
{
    let part = text.as_bytes();
    let n: usize = part.len();
    for i in 0..n
        invariant
            n == part@.len(),
            part@ == encode_utf8(text@),
            bytes@ =~= old(bytes)@ + part@.take(i as int),
    {
        bytes.push(part[i]);
    }
    assert(part@.take(n as int) =~= part@);
}

/// The bytes of a response that carries JSON.
pub open spec fn response_with(body: Seq<char>) -> Seq<u8> {
    encode_utf8(
        "HTTP/1.1 200 OK\r\nContent-Type: application/json\r\nContent-Length: "@,
    ) + decimal(encode_utf8(body).len()) + encode_utf8("\r\n\r\n"@) + encode_utf8(body)
}

/// The bytes of a response that carries JSON.
pub fn metrics_response(body: &str) -> (response: Vec<u8>)
    ensures
        response@ == response_with(body@),
{
    let mut response: Vec<u8> = Vec::new();
    push_text(
        &mut response,
        "HTTP/1.1 200 OK\r\nContent-Type: application/json\r\nContent-Length: ",
    );
    push_decimal(&mut response, body.as_bytes().len());
    push_text(&mut response, "\r\n\r\n");
    push_text(&mut response, body);
    assert(response@ =~= response_with(body@));
    response
}

/// Bytes as characters.
pub open spec fn as_chars(bytes: Seq<u8>) -> Seq<char> {
    bytes.map_values(|byte: u8| byte as char)
}

/// Decimal digits read back as the number that they write.
pub proof fn law_decimal_reads_back(n: nat)
    ensures
        number_in(as_chars(decimal(n)), n as int) == Some(n as int),
{
    lemma_decimal(n);
}

proof fn lemma_decimal(n: nat)
    ensures
        decimal(n).len() > 0,
        forall|i: int|
            0 <= i < decimal(n).len() ==> is_digit(#[trigger] as_chars(decimal(n))[i]),
        digits_value(as_chars(decimal(n))) == n,
    decreases n,
{
    let chars = as_chars(decimal(n));
    if n < 10 {
        assert(chars.drop_last() =~= Seq::empty());
        assert(digits_value(chars.drop_last()) == 0);
    } else {
        lemma_decimal(n / 10);
        let front = as_chars(decimal(n / 10));
        assert(chars.drop_last() =~= front);
        assert forall|i: int| 0 <= i < chars.len() implies is_digit(#[trigger] chars[i]) by {
            if i < front.len() {
                assert(chars[i] == front[i]);
            }
        }
    }
}

/// The decimal digits of a number: digits only, without leading zeros, which
/// read as the number.
pub proof fn law_decimal_digits(n: nat)
    ensures
        decimal(n).len() > 0,
        n > 0 ==> decimal(n)[0] != 0x30,
        n < 10 ==> decimal(n).len() == 1,
        forall|i: int| 0 <= i < decimal(n).len() ==> 0x30 <= #[trigger] decimal(n)[i] <= 0x39,
        forall|i: int|
            0 <= i < decimal(n).len() ==> 0x30 <= #[trigger] as_chars(decimal(n))[i] as int <= 0x39,
        digits_value(as_chars(decimal(n))) == n,
    decreases n,
{
    lemma_decimal(n);
    if n >= 10 {
        law_decimal_digits(n / 10);
        assert(decimal(n)[0] == decimal(n / 10)[0]);
        assert forall|i: int| 0 <= i < decimal(n).len() implies 0x30 <= #[trigger] decimal(n)[i]
            <= 0x39 by {
            if i < decimal(n / 10).len() {
                assert(decimal(n)[i] == decimal(n / 10)[i]);
            }
        }
    }
    assert forall|i: int| 0 <= i < decimal(n).len() implies 0x30 <= #[trigger] as_chars(
        decimal(n),
    )[i] as int <= 0x39 by {
        assert(0x30 <= decimal(n)[i] <= 0x39);
    }
}

/// Every id can be taken out of the queue: a DELETE of its digits behind
/// "/queue/" asks for it.
pub proof fn law_every_id_can_be_removed(id: u64)
    ensures
        route_of(Method::Delete, "/queue/"@ + as_chars(decimal(id as nat))) == Route::Remove(id),
{
    law_decimal_digits(id as nat);
    law_digits_behind_the_path_are_an_id(as_chars(decimal(id as nat)));
}

/// A DELETE of digits behind "/queue/" asks for the player of that id, if it
/// fits 64 bits, and for nobody otherwise. A plus sign may precede the digits.
pub proof fn law_digits_behind_the_path_are_an_id(digits: Seq<char>)
    requires
        digits.len() > 0,
        forall|i: int| 0 <= i < digits.len() ==> 0x30 <= #[trigger] digits[i] as int <= 0x39,
    ensures
        0 <= digits_value(digits) <= 0xffff_ffff_ffff_ffff ==> route_of(
            Method::Delete,
            "/queue/"@ + digits,
        ) == Route::Remove(digits_value(digits) as u64),
        0 <= digits_value(digits) <= 0xffff_ffff_ffff_ffff ==> route_of(
            Method::Delete,
            "/queue/"@ + (seq!['+'] + digits),
        ) == Route::Remove(digits_value(digits) as u64),
        digits_value(digits) > 0xffff_ffff_ffff_ffff ==> route_of(
            Method::Delete,
            "/queue/"@ + digits,
        ) == Route::RemoveUnreadable,
        digits_value(digits) > 0xffff_ffff_ffff_ffff ==> route_of(
            Method::Delete,
            "/queue/"@ + (seq!['+'] + digits),
        ) == Route::RemoveUnreadable,
{
    reveal_strlit("/queue/");
    let path = "/queue/"@;
    let signed = seq!['+'] + digits;
    assert(path[0] == '/');
    assert(0x30 <= digits[0] as int <= 0x39);
    if path.is_prefix_of(digits) {
        assert(digits.subrange(0, path.len() as int)[0] == path[0]);
    }
    if path.is_prefix_of(signed) {
        assert(signed.subrange(0, path.len() as int)[0] == path[0]);
    }
    law_prefix_is_taken_off(path, digits);
    law_prefix_is_taken_off(path, signed);
    law_numbers_are_read(digits, u64::MAX as int);
}

/// A DELETE of anything else behind "/queue/" asks for an id that cannot be
/// read. The path may stand there more than once.
pub proof fn law_other_text_behind_the_path_is_no_id(text: Seq<char>, i: int)
    requires
        !"/queue/"@.is_prefix_of(text),
        text.len() == 0 || text == seq!['+'] || (0 <= i < text.len() && !(0x30 <= text[i] as int
            <= 0x39) && (i > 0 || text[0] != '+')),
    ensures
        route_of(Method::Delete, "/queue/"@ + text) == Route::RemoveUnreadable,
{
    reveal_strlit("/queue/");
    law_prefix_is_taken_off("/queue/"@, text);
    law_other_text_is_no_number(text, u64::MAX as int, i);
}

/// The path in front of an address may be repeated.
pub proof fn law_path_may_be_repeated(url: Seq<char>)
    requires
        "/queue/"@.is_prefix_of(url),
    ensures
        route_of(Method::Delete, "/queue/"@ + url) == route_of(Method::Delete, url),
{
    reveal_strlit("/queue/");
    let path = "/queue/"@;
    assert((path + url).subrange(0, path.len() as int) =~= path);
    assert((path + url).skip(path.len() as int) =~= url);
}

/// What is offered: to queue by POST, to leave by DELETE, and the metrics by GET.
/// Everything else is unknown.
pub proof fn law_everything_else_is_unknown(method: Method, url: Seq<char>)
    ensures
        route_of(Method::Post, "/queue"@) == Route::Enqueue,
        route_of(Method::Get, "/metrics"@) == Route::Metrics,
        route_of(method, url) is Enqueue ==> method == Method::Post && url == "/queue"@,
        route_of(method, url) is Metrics ==> method == Method::Get && url == "/metrics"@,
        route_of(method, url) is Remove || route_of(method, url) is RemoveUnreadable <==> method
            == Method::Delete && "/queue/"@.is_prefix_of(url),
        route_of(method, url) is Unknown <==> !(method == Method::Post && url == "/queue"@) && !(
        method == Method::Get && url == "/metrics"@) && !(method == Method::Delete
            && "/queue/"@.is_prefix_of(url)),
{
}

/// The response announces the number of bytes of its body in decimal digits,
/// and ends with the body.
pub proof fn law_response_carries_its_body(body: Seq<char>) -> (digits: Seq<u8>)
    ensures
        response_with(body) == encode_utf8(
            "HTTP/1.1 200 OK\r\nContent-Type: application/json\r\nContent-Length: "@,
        ) + digits + encode_utf8("\r\n\r\n"@) + encode_utf8(body),
        digits.len() > 0,
        digits[0] == 0x30 ==> digits.len() == 1,
        forall|i: int| 0 <= i < digits.len() ==> 0x30 <= #[trigger] digits[i] <= 0x39,
        digits_value(as_chars(digits)) == encode_utf8(body).len(),
{
    law_decimal_digits(encode_utf8(body).len());
    decimal(encode_utf8(body).len())
}

/// How refusals are answered: what cannot be read and what is no rating with 400,
/// what is not offered with 404, who is queued already with 409, and what finds
/// no room with 503.
pub proof fn law_refusals_have_codes_and_texts()
    ensures
        Refusal::InvalidPayload.code() == 400 && Refusal::InvalidPayload.text()
            == "invalid JSON payload"@,
        Refusal::InvalidId.code() == 400 && Refusal::InvalidId.text() == "invalid id"@,
        Refusal::NotFound.code() == 404 && Refusal::NotFound.text() == "not found"@,
        Refusal::ServerBusy.code() == 503 && Refusal::ServerBusy.text() == "server busy"@,
        Refusal::Enqueue(EnqueueError::DuplicateId).code() == 409,
        Refusal::Enqueue(EnqueueError::DuplicateId).text() == "player id already queued"@,
        Refusal::Enqueue(EnqueueError::InvalidRating).code() == 400,
        Refusal::Enqueue(EnqueueError::InvalidRating).text()
            == "skill_rating must be a finite number"@,
        forall|err: EnqueueError| #[trigger] err.code() == Refusal::Enqueue(err).code(),
        forall|err: EnqueueError| #[trigger] err.text() == Refusal::Enqueue(err).text(),
{
}

} // verus!
