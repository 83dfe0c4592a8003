//! Round-trip clock synchronisation: the four timestamps of one exchange,
//! the estimates drawn from them, and the datagrams that carry them.
use crate::error::ProtocolError;
use crate::wire::{be16, be16_value, be32, be32_value, be64, be64_value, be_bytes_u16, be_bytes_u32,
    be_bytes_u64, read_be_u16, read_be_u32, read_be_u64};
use vstd::prelude::*;

verus! {

/// The monotonic clock could not be read.
#[derive(Debug, Clone)]
pub struct ClockError(pub String);

/// Integer division that rounds toward zero, as Rust's `/` on signed integers.
pub open spec fn div_toward_zero(a: int, b: int) -> int
    recommends
        b > 0,
{
    if a >= 0 {
        a / b
    } else {
        -((-a) / b)
    }
}

/// The timestamps of one exchange, in microseconds: the client's emission
/// (`t1`), the server's reception (`t2`) and emission (`t3`), and the
/// client's reception (`t4`).
#[derive(Debug, Clone, Copy, PartialEq, Eq, Structural)]
pub struct ClockSyncResult {
    pub t1: i64,
    pub t2: i64,
    pub t3: i64,
    pub t4: i64,
}

/// `t2 - t1 + t3 - t4`, twice the estimated offset of the server's clock.
pub open spec fn offset_twice(r: ClockSyncResult) -> int {
    r.t2 - r.t1 + r.t3 - r.t4
}

/// The estimated offset of the server's clock over the client's.
pub open spec fn offset_of(r: ClockSyncResult) -> int {
    div_toward_zero(offset_twice(r), 2)
}

/// The round-trip time less the time the server held the request.
pub open spec fn delay_of(r: ClockSyncResult) -> int {
    (r.t4 - r.t1) - (r.t3 - r.t2)
}

pub open spec fn fits_i64(x: int) -> bool {
    i64::MIN <= x <= i64::MAX
}

/// The offset of `r` can be computed in 64-bit arithmetic, evaluated left
/// to right as written.
pub open spec fn offset_fits(r: ClockSyncResult) -> bool {
    &&& fits_i64(r.t2 - r.t1)
    &&& fits_i64(r.t2 - r.t1 + r.t3)
    &&& fits_i64(offset_twice(r))
}

/// The delay of `r` can be computed in 64-bit arithmetic.
pub open spec fn delay_fits(r: ClockSyncResult) -> bool {
    &&& fits_i64(r.t4 - r.t1)
    &&& fits_i64(r.t3 - r.t2)
    &&& fits_i64(delay_of(r))
}

/// Both estimates of `r` can be computed in 64-bit arithmetic.
pub open spec fn estimates_fit(r: ClockSyncResult) -> bool {
    offset_fits(r) && delay_fits(r)
}

impl ClockSyncResult {
    pub fn new(t1: i64, t2: i64, t3: i64, t4: i64) -> (r: Self)
        ensures
            r == (ClockSyncResult { t1, t2, t3, t4 }),
    {
        ClockSyncResult { t1, t2, t3, t4 }
    }

    /// `((t2 - t1) + (t3 - t4)) / 2`, rounded toward zero.
    pub fn offset_micros(&self) -> (o: i64)
        requires
            offset_fits(*self),
        ensures
            o == offset_of(*self),
    {
        let twice = self.t2 - self.t1 + self.t3 - self.t4;
        halve(twice)
    }

    /// `(t4 - t1) - (t3 - t2)`.
    pub fn delay_micros(&self) -> (d: i64)
        requires
            delay_fits(*self),
        ensures
            d == delay_of(*self),
    {
        (self.t4 - self.t1) - (self.t3 - self.t2)
    }
}

/// `x / 2`, rounded toward zero.
fn halve(x: i64) -> (h: i64)
    ensures
        h == div_toward_zero(x as int, 2),
{
    if x >= 0 {
        x / 2
    } else {
        let m: i64 = if x == i64::MIN {
            0x4000_0000_0000_0000i64
        } else {
            (-x) / 2
        };
        -m
    }
}

/// The sum of the offsets of `s`.
pub open spec fn offset_total(s: Seq<ClockSyncResult>) -> int
    decreases s.len(),
{
    if s.len() == 0 {
        0
    } else {
        offset_total(s.drop_last()) + offset_of(s.last())
    }
}

/// The sum of the delays of `s`.
pub open spec fn delay_total(s: Seq<ClockSyncResult>) -> int
    decreases s.len(),
{
    if s.len() == 0 {
        0
    } else {
        delay_total(s.drop_last()) + delay_of(s.last())
    }
}

/// Every result of `s` has estimates in range, and so has every running sum.
pub open spec fn averageable(s: Seq<ClockSyncResult>) -> bool {
    &&& 0 < s.len() <= u32::MAX
    &&& forall|i: int| 0 <= i < s.len() ==> #[trigger] estimates_fit(s[i])
    &&& forall|k: int|
        0 <= k <= s.len() ==> fits_i64(#[trigger] offset_total(s.take(k))) && fits_i64(
            delay_total(s.take(k)),
        )
}

/// The mean offset and delay over several exchanges.
pub struct ClockSyncAverage {
    offset_micros: i64,
    delay_micros: i64,
}

impl ClockSyncAverage {
    pub closed spec fn offset(&self) -> int {
        self.offset_micros as int
    }

    pub closed spec fn delay(&self) -> int {
        self.delay_micros as int
    }

    /// The mean of the offsets and of the delays of `results`, each sum
    /// divided by the count and rounded toward zero.
    pub fn from_results(results: &[ClockSyncResult]) -> (a: Self)
        requires
            averageable(results@),
        ensures
            a.offset() == div_toward_zero(offset_total(results@), results@.len() as int),
            a.delay() == div_toward_zero(delay_total(results@), results@.len() as int),
    {
        let mut offset_sum: i64 = 0;
        let mut delay_sum: i64 = 0;
        let mut i: usize = 0;
        while i < results.len()
            invariant
                averageable(results@),
                i <= results@.len(),
                offset_sum == offset_total(results@.take(i as int)),
                delay_sum == delay_total(results@.take(i as int)),
            decreases results@.len() - i,
        {
            let r = results[i];
            assert(results@.take(i as int + 1).drop_last() =~= results@.take(i as int));
            assert(results@.take(i as int + 1).last() == r);
            assert(estimates_fit(results@[i as int]));
            assert(fits_i64(offset_total(results@.take(i as int + 1))));
            assert(fits_i64(delay_total(results@.take(i as int + 1))));
            offset_sum = offset_sum + r.offset_micros();
            delay_sum = delay_sum + r.delay_micros();
            i = i + 1;
        }
        assert(results@.take(results@.len() as int) =~= results@);
        let count = results.len() as i64;
        ClockSyncAverage {
            offset_micros: divide(offset_sum, count),
            delay_micros: divide(delay_sum, count),
        }
    }

    pub fn offset_micros(&self) -> (o: i64)
        ensures
            o == self.offset(),
    {
        self.offset_micros
    }

    pub fn delay_micros(&self) -> (d: i64)
        ensures
            d == self.delay(),
    {
        self.delay_micros
    }
}

/// `x / n` for a positive `n`, rounded toward zero.
fn divide(x: i64, n: i64) -> (q: i64)
    requires
        n > 0,
    ensures
        q == div_toward_zero(x as int, n as int),
{
    if x >= 0 {
        let q = x / n;
        assert(q == div_toward_zero(x as int, n as int));
        q
    } else if x == i64::MIN {
        if n == 1 {
            assert(x == div_toward_zero(x as int, n as int));
            x
        } else {
            let y: i64 = -(x + n);
            let m: i64 = y / n + 1;
            assert(m == (-(x as int)) / (n as int)) by (nonlinear_arith)
                requires
                    x == i64::MIN,
                    n > 1,
                    y == -(x + n),
                    m == y / n + 1,
            ;
            -m
        }
    } else {
        let y: i64 = -x;
        let q = -(y / n);
        assert(q == div_toward_zero(x as int, n as int));
        q
    }
}

/// The length of a request: endpoint id, request id and `t1`.
pub const SYNC_REQUEST_SIZE: usize = 14;

/// The length of a response: the request followed by `t2` and `t3`.
pub const SYNC_RESPONSE_SIZE: usize = 30;

/// How long a client waits for its response, in microseconds.
pub const SYNC_TIMEOUT_MICROS: i64 = 200000;

/// The request that carries `t1` under `req_id` on endpoint `endpoint_id`.
pub open spec fn request_bytes(endpoint_id: u16, req_id: u32, t1: i64) -> Seq<u8> {
    be16(endpoint_id) + be32(req_id) + be64(t1 as u64)
}

/// The request a client sends.
pub fn encode_sync_request(endpoint_id: u16, req_id: u32, t1: i64) -> (b: Vec<u8>)
    ensures
        b@ == request_bytes(endpoint_id, req_id, t1),
{
    let mut out: Vec<u8> = Vec::new();
    let a = be_bytes_u16(endpoint_id);
    let c = be_bytes_u32(req_id);
    let d = be_bytes_u64(t1 as u64);
    crate::serial::append_bytes(&mut out, &a);
    crate::serial::append_bytes(&mut out, &c);
    crate::serial::append_bytes(&mut out, &d);
    out
}

/// The message of a length error: `expected {expected} byte {what}, got {got}`.
pub open spec fn length_message_of(expected: Seq<char>, what: Seq<char>, got: Seq<char>) -> Seq<
    char,
> {
    "expected "@ + expected + " byte "@ + what + ", got "@ + got
}

fn length_error(expected: usize, what: &str, got: usize) -> (e: ProtocolError)
    ensures
        exists|x: String, y: String|
            vstd::string::to_string_from_display_ensures::<usize>(&expected, x)
                && vstd::string::to_string_from_display_ensures::<usize>(&got, y) && e.0@
                == length_message_of(x@, what@, y@),
{
    let x = expected.to_string();
    let y = got.to_string();
    let m = String::from_str("expected ").concat(x.as_str()).concat(" byte ").concat(what).concat(
        ", got ",
    ).concat(y.as_str());
    assert(m@ == length_message_of(x@, what@, y@));
    ProtocolError(m)
}

/// A request is accepted exactly when it has the request length.
pub fn validate_sync_request(datagram: &[u8]) -> (r: Result<(), ProtocolError>)
    ensures
        r is Ok <==> datagram@.len() == SYNC_REQUEST_SIZE,
{
    if datagram.len() != SYNC_REQUEST_SIZE {
        return Err(length_error(SYNC_REQUEST_SIZE, "clock sync request", datagram.len()));
    }
    Ok(())
}

/// A response is accepted exactly when it has the response length and
/// names the expected endpoint.
pub fn validate_sync_response(response: &[u8], expected_endpoint_id: u16) -> (r: Result<
    (),
    ProtocolError,
>)
    ensures
        r is Ok <==> response@.len() == SYNC_RESPONSE_SIZE && be16_value(response@)
            == expected_endpoint_id,
{
    if response.len() != SYNC_RESPONSE_SIZE {
        return Err(length_error(SYNC_RESPONSE_SIZE, "clock sync response", response.len()));
    }
    let endpoint_id = read_be_u16(response);
    if endpoint_id != expected_endpoint_id {
        let x = expected_endpoint_id.to_string();
        let y = endpoint_id.to_string();
        let m = String::from_str("clock sync endpoint id mismatch: expected ").concat(
            x.as_str(),
        ).concat(", got ").concat(y.as_str());
        return Err(ProtocolError(m));
    }
    Ok(())
}

/// The server's answer to `request`: the request itself followed by the
/// reception and emission times.
pub fn encode_sync_response(request: &[u8], t2: i64, t3: i64) -> (r: Result<
    Vec<u8>,
    ProtocolError,
>)
    ensures
        match r {
            Ok(b) => request@.len() == SYNC_REQUEST_SIZE && b@ == request@ + be64(t2 as u64) + be64(
                t3 as u64,
            ),
            Err(_) => request@.len() != SYNC_REQUEST_SIZE,
        },
{
    if let Err(e) = validate_sync_request(request) {
        return Err(e);
    }
    let mut out: Vec<u8> = Vec::new();
    crate::serial::append_bytes(&mut out, request);
    let a = be_bytes_u64(t2 as u64);
    let b = be_bytes_u64(t3 as u64);
    crate::serial::append_bytes(&mut out, &a);
    crate::serial::append_bytes(&mut out, &b);
    Ok(out)
}

/// What a client makes of `response` to its request `req_id`, received at
/// `t4`: an error for a malformed response, nothing for the answer to
/// another request, else the four timestamps.
pub fn read_sync_response(response: &[u8], expected_endpoint_id: u16, req_id: u32, t4: i64) -> (r:
    Result<Option<ClockSyncResult>, ProtocolError>)
    ensures
        match r {
            Err(_) => !(response@.len() == SYNC_RESPONSE_SIZE && be16_value(response@)
                == expected_endpoint_id),
            Ok(o) => response@.len() == SYNC_RESPONSE_SIZE && be16_value(response@)
                == expected_endpoint_id && match o {
                None => be32_value(response@.subrange(2, 6)) != req_id,
                Some(res) => be32_value(response@.subrange(2, 6)) == req_id && res == (
                ClockSyncResult {
                    t1: be64_value(response@.subrange(6, 14)) as i64,
                    t2: be64_value(response@.subrange(14, 22)) as i64,
                    t3: be64_value(response@.subrange(22, 30)) as i64,
                    t4,
                }),
            },
        },
{
    if let Err(e) = validate_sync_response(response, expected_endpoint_id) {
        return Err(e);
    }
    let id = read_be_u32(vstd::slice::slice_subrange(response, 2, 6));
    if id != req_id {
        return Ok(None);
    }
    let t1 = read_be_u64(vstd::slice::slice_subrange(response, 6, 14)) as i64;
    let t2 = read_be_u64(vstd::slice::slice_subrange(response, 14, 22)) as i64;
    let t3 = read_be_u64(vstd::slice::slice_subrange(response, 22, 30)) as i64;
    Ok(Some(ClockSyncResult { t1, t2, t3, t4 }))
}

/// How long a client that sent at `t1` may still wait at `now`: nothing once
/// the deadline `t1 + SYNC_TIMEOUT_MICROS` has passed.
pub fn remaining_wait(t1: i64, now: i64) -> (w: Option<u64>)
    requires
        t1 + SYNC_TIMEOUT_MICROS <= i64::MAX,
    ensures
        match w {
            None => now >= t1 + SYNC_TIMEOUT_MICROS,
            Some(d) => now < t1 + SYNC_TIMEOUT_MICROS && d == t1 + SYNC_TIMEOUT_MICROS - now,
        },
{
    let deadline = t1 + SYNC_TIMEOUT_MICROS;
    if now >= deadline {
        None
    } else {
        Some((deadline as i128 - now as i128) as u64)
    }
}

/// The request id that follows `id`, wrapping at the end of the range.
pub fn next_request_id(id: u32) -> (n: u32)
    ensures
        n == (if id == u32::MAX { 0 } else { id + 1 }),
{
    id.wrapping_add(1)
}


/// The estimates of an exchange over paths of one-way delays `d1` (to the
/// server) and `d2` (back), with the server's clock ahead by `theta` and the
/// request held `h` there: the delay is the sum of the path delays, and
/// twice the offset is twice `theta` plus the asymmetry of the paths. With
/// symmetric paths the offset is exactly `theta`.
pub proof fn lemma_exchange_estimates(r: ClockSyncResult, d1: int, d2: int, theta: int, h: int)
    requires
        r.t2 == r.t1 + d1 + theta,
        r.t3 == r.t2 + h,
        r.t4 == r.t3 - theta + d2,
    ensures
        delay_of(r) == d1 + d2,
        offset_twice(r) == 2 * theta + d1 - d2,
        d1 == d2 ==> offset_of(r) == theta,
{
    if d1 == d2 {
        assert(offset_twice(r) == 2 * theta);
        if theta >= 0 {
            assert((2 * theta) / 2 == theta);
        } else {
            assert((-(2 * theta)) / 2 == -theta);
        }
    }
}

} // verus!
