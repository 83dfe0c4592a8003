//! `kymux://` addresses: a host, a port and a hexadecimal endpoint id.
//!
//! The URL itself is parsed by the `url` crate; what this module decides is
//! which parsed URLs are endpoint addresses, and what they designate.
use crate::control::{upper_hex, upper_hex_string};
use crate::telemetry::{decimal, decimal_string};
use crate::text::digit_str;
use crate::util::ExParseIntError;
use std::num::ParseIntError;
use vstd::prelude::*;
use vstd::string::StrSliceExecFns;

verus! {

/// An IP address: four bytes, or eight 16-bit groups.
#[derive(Debug, Clone, Copy, PartialEq, Eq)]
pub enum IpAddress {
    V4([u8; 4]),
    V6([u16; 8]),
}

/// An IP address and a port.
#[derive(Debug, Clone, Copy, PartialEq, Eq)]
pub struct SocketAddress {
    pub ip: IpAddress,
    pub port: u16,
}

/// The host of a parsed URL.
#[derive(Debug)]
pub enum UrlHost {
    Domain(String),
    Ipv4([u8; 4]),
    Ipv6([u16; 8]),
}

/// The host of a parsed URL, as text where it is a name.
pub enum UrlHostView {
    Domain(Seq<char>),
    Ipv4([u8; 4]),
    Ipv6([u16; 8]),
}

/// The parts of a parsed URL that an endpoint address uses.
#[derive(Debug)]
pub struct UrlParts {
    pub scheme: String,
    pub host_str: Option<String>,
    pub host: Option<UrlHost>,
    pub port: Option<u16>,
    pub path: String,
}

/// The parts of a parsed URL, as text.
pub struct UrlPartsView {
    pub scheme: Seq<char>,
    pub host_str: Option<Seq<char>>,
    pub host: Option<UrlHostView>,
    pub port: Option<u16>,
    pub path: Seq<char>,
}

impl UrlHost {
    pub open spec fn spec_view(&self) -> UrlHostView {
        match self {
            UrlHost::Domain(d) => UrlHostView::Domain(d@),
            UrlHost::Ipv4(a) => UrlHostView::Ipv4(*a),
            UrlHost::Ipv6(a) => UrlHostView::Ipv6(*a),
        }
    }
}

impl UrlParts {
    pub open spec fn spec_view(&self) -> UrlPartsView {
        UrlPartsView {
            scheme: self.scheme@,
            host_str: match self.host_str {
                Some(h) => Some(h@),
                None => None,
            },
            host: match self.host {
                Some(h) => Some(h.spec_view()),
                None => None,
            },
            port: self.port,
            path: self.path@,
        }
    }
}

/// What `url::Url::parse` makes of `s`, where it accepts it: its scheme,
/// host (as text and parsed), explicit port and path.
pub uninterp spec fn parsed_url(s: Seq<char>) -> Option<UrlPartsView>;

/// `url::Url::parse`, read into the parts an endpoint address uses: the
/// scheme, `host_str`, `host`, `port` and `path` of the parsed URL, or
/// nothing where the text is not a URL.
#[verifier::external_body]
fn parse_url(s: &str) -> (r: Result<UrlParts, String>)
    ensures
        match r {
            Ok(p) => parsed_url(s@) == Some(p.spec_view()),
            Err(_) => parsed_url(s@) is None,
        },
{
    let url = url::Url::parse(s).map_err(|e| e.to_string())?;
    let host = match url.host() {
        Some(url::Host::Domain(d)) => Some(UrlHost::Domain(d.to_string())),
        Some(url::Host::Ipv4(a)) => Some(UrlHost::Ipv4(a.octets())),
        Some(url::Host::Ipv6(a)) => Some(UrlHost::Ipv6(a.segments())),
        None => None,
    };
    Ok(UrlParts {
        scheme: url.scheme().to_string(),
        host_str: url.host_str().map(|h| h.to_string()),
        host,
        port: url.port(),
        path: url.path().to_string(),
    })
}

pub open spec fn is_digit(c: char) -> bool {
    '0' <= c <= '9'
}

/// The value of a string of decimal digits.
pub open spec fn decimal_value(p: Seq<char>) -> int
    decreases p.len(),
{
    if p.len() == 0 {
        0
    } else {
        decimal_value(p.drop_last()) * 10 + (p.last() as int - 48)
    }
}

/// A decimal octet: one to three digits, no leading zero, at most 255.
pub open spec fn octet_of(p: Seq<char>) -> Option<u8> {
    if 1 <= p.len() <= 3 && (forall|i: int| 0 <= i < p.len() ==> is_digit(#[trigger] p[i])) && !(
    p.len() > 1 && p[0] == '0') && decimal_value(p) <= 255 {
        Some(decimal_value(p) as u8)
    } else {
        None
    }
}

/// The positions of the dots in `s`, in order.
pub open spec fn dots(s: Seq<char>) -> Seq<int>
    decreases s.len(),
{
    if s.len() == 0 {
        Seq::empty()
    } else if s.last() == '.' {
        dots(s.drop_last()).push(s.len() - 1)
    } else {
        dots(s.drop_last())
    }
}

/// The IPv4 address that `s` writes as four dot-separated decimal octets,
/// as `std::net::Ipv4Addr` reads it.
pub open spec fn ipv4_of(s: Seq<char>) -> Option<[u8; 4]> {
    let d = dots(s);
    if d.len() != 3 {
        None
    } else {
        match (
            octet_of(s.subrange(0, d[0])),
            octet_of(s.subrange(d[0] + 1, d[1])),
            octet_of(s.subrange(d[1] + 1, d[2])),
            octet_of(s.subrange(d[2] + 1, s.len() as int)),
        ) {
            (Some(a), Some(b), Some(c), Some(e)) => Some([a, b, c, e]),
            _ => None,
        }
    }
}

proof fn lemma_dots_bounds(s: Seq<char>)
    ensures
        forall|k: int| 0 <= k < dots(s).len() ==> 0 <= #[trigger] dots(s)[k] < s.len() && s[dots(s)[k]] == '.',
        forall|k: int, l: int| 0 <= k < l < dots(s).len() ==> #[trigger] dots(s)[k] < #[trigger] dots(s)[l],
    decreases s.len(),
{
    if s.len() > 0 {
        lemma_dots_bounds(s.drop_last());
        let d = dots(s.drop_last());
        assert forall|k: int| 0 <= k < d.len() implies s[d[k]] == '.' by {
            assert(s.drop_last()[d[k]] == s[d[k]]);
        }
    }
}

/// Reads a decimal octet from the characters `[from, to)` of `s`.
fn parse_octet(s: &str, from: usize, to: usize) -> (r: Option<u8>)
    requires
        from <= to <= s@.len(),
    ensures
        r == octet_of(s@.subrange(from as int, to as int)),
{
    let ghost p = s@.subrange(from as int, to as int);
    if to - from < 1 || to - from > 3 {
        return None;
    }
    let first = s.get_char(from);
    if to - from > 1 && first == '0' {
        return None;
    }
    let mut value: u32 = 0;
    let mut i: usize = from;
    while i < to
        invariant
            from <= i <= to <= s@.len(),
            to - from <= 3,
            p == s@.subrange(from as int, to as int),
            value == decimal_value(p.subrange(0, i - from)),
            value < (if i - from == 0 {
                1int
            } else if i - from == 1 {
                10int
            } else if i - from == 2 {
                100int
            } else {
                1000int
            }),
            forall|k: int| 0 <= k < i - from ==> is_digit(#[trigger] p[k]),
        decreases to - i,
    {
        let c = s.get_char(i);
        assert(p[i - from] == c);
        if c < '0' || c > '9' {
            return None;
        }
        assert(p.subrange(0, i + 1 - from).drop_last() =~= p.subrange(0, i - from));
        assert(value * 10 + 9 < 10000);
        value = value * 10 + (c as u32 - 48);
        i = i + 1;
    }
    assert(p.subrange(0, p.len() as int) =~= p);
    if value > 255 {
        return None;
    }
    Some(value as u8)
}

/// Reads an IPv4 address written as four dot-separated decimal octets.
pub fn parse_ipv4(s: &str) -> (r: Option<[u8; 4]>)
    ensures
        r == ipv4_of(s@),
{
    let n = s.unicode_len();
    let mut found: Vec<usize> = Vec::new();
    let mut i: usize = 0;
    while i < n
        invariant
            i <= n == s@.len(),
            found@.len() == dots(s@.subrange(0, i as int)).len(),
            forall|k: int| 0 <= k < found@.len() ==> found@[k] == #[trigger] dots(s@.subrange(0, i as int))[k],
        decreases n - i,
    {
        let c = s.get_char(i);
        let ghost before = s@.subrange(0, i as int);
        assert(s@.subrange(0, i + 1).drop_last() =~= before);
        assert(s@.subrange(0, i + 1).last() == c);
        if c == '.' {
            found.push(i);
        }
        i = i + 1;
    }
    assert(s@.subrange(0, n as int) =~= s@);
    proof {
        lemma_dots_bounds(s@);
    }
    if found.len() != 3 {
        return None;
    }
    let a = parse_octet(s, 0, found[0]);
    let b = parse_octet(s, found[0] + 1, found[1]);
    let c = parse_octet(s, found[1] + 1, found[2]);
    let d = parse_octet(s, found[2] + 1, n);
    match (a, b, c, d) {
        (Some(a), Some(b), Some(c), Some(d)) => Some([a, b, c, d]),
        _ => None,
    }
}

/// The value of a hexadecimal digit, of either case.
pub open spec fn hex_char_value(c: char) -> Option<int> {
    if '0' <= c <= '9' {
        Some(c as int - 48)
    } else if 'a' <= c <= 'f' {
        Some(c as int - 87)
    } else if 'A' <= c <= 'F' {
        Some(c as int - 55)
    } else {
        None
    }
}

/// The value of a string of hexadecimal digits, if it is one.
pub open spec fn hex_digits_value(p: Seq<char>) -> Option<int>
    decreases p.len(),
{
    if p.len() == 0 {
        Some(0)
    } else {
        match (hex_digits_value(p.drop_last()), hex_char_value(p.last())) {
            (Some(v), Some(d)) => Some(v * 16 + d),
            _ => None,
        }
    }
}

/// What `u16::from_str_radix(s, 16)` gives: an optional `+` followed by at
/// least one hexadecimal digit, whose value fits in 16 bits.
pub open spec fn hex_u16_of(s: Seq<char>) -> Option<u16> {
    let digits = if s.len() > 0 && s[0] == '+' {
        s.subrange(1, s.len() as int)
    } else {
        s
    };
    if digits.len() == 0 {
        None
    } else {
        match hex_digits_value(digits) {
            Some(v) => if v <= 0xFFFF {
                Some(v as u16)
            } else {
                None
            },
            None => None,
        }
    }
}

/// `u16::from_str_radix(s, 16)`: per its documentation, an optional `+`
/// and then hexadecimal digits of either case, whose value must fit.
#[verifier::external_body]
fn parse_hex_u16(s: &str) -> (r: Result<u16, ParseIntError>)
    ensures
        match r {
            Ok(v) => hex_u16_of(s@) == Some(v),
            Err(_) => hex_u16_of(s@) is None,
        },
{
    u16::from_str_radix(s, 16)
}

/// The URL could not be read as an endpoint address.
#[derive(Debug, Clone, Copy, PartialEq, Eq, Structural)]
pub enum UriError {
    InvalidUri,
}

/// The address and endpoint id that `uri` designates: a `kymux` URL whose
/// host is an IPv4 address, with a port, and whose path after its first
/// character is the endpoint id in hexadecimal.
pub open spec fn uri_target(uri: Seq<char>) -> Option<(SocketAddress, u16)> {
    match parsed_url(uri) {
        None => None,
        Some(u) => if u.scheme != "kymux"@ {
            None
        } else {
            match (u.host_str, u.port) {
                (Some(h), Some(port)) => match ipv4_of(h) {
                    Some(ip) => if u.path.len() == 0 {
                        None
                    } else {
                        match hex_u16_of(u.path.subrange(1, u.path.len() as int)) {
                            Some(id) => Some((SocketAddress { ip: IpAddress::V4(ip), port }, id)),
                            None => None,
                        }
                    },
                    None => None,
                },
                _ => None,
            }
        },
    }
}

/// Reads the target of a client's `kymux` URL. Where the host is an IPv6
/// address, the URL writes it in brackets, which no address syntax reads.
pub fn parse_uri(uri: &str) -> (r: Result<(SocketAddress, u16), UriError>)
    ensures
        match r {
            Ok(t) => uri_target(uri@) == Some(t),
            Err(_) => uri_target(uri@) is None,
        },
{
    let parts = match parse_url(uri) {
        Ok(p) => p,
        Err(_) => {
            return Err(UriError::InvalidUri);
        },
    };
    proof {
        reveal_strlit("kymux");
    }
    if !str_eq(parts.scheme.as_str(), "kymux") {
        return Err(UriError::InvalidUri);
    }
    let host = match &parts.host_str {
        Some(h) => h,
        None => {
            return Err(UriError::InvalidUri);
        },
    };
    let ip = match parse_ipv4(host.as_str()) {
        Some(ip) => ip,
        None => {
            return Err(UriError::InvalidUri);
        },
    };
    let port = match parts.port {
        Some(p) => p,
        None => {
            return Err(UriError::InvalidUri);
        },
    };
    let path = parts.path.as_str();
    let len = path.unicode_len();
    if len == 0 {
        return Err(UriError::InvalidUri);
    }
    let id = match parse_hex_u16(path.substring_char(1, len)) {
        Ok(id) => id,
        Err(_) => {
            return Err(UriError::InvalidUri);
        },
    };
    Ok((SocketAddress { ip: IpAddress::V4(ip), port }, id))
}

/// Whether two strings hold the same characters.
pub fn str_eq(a: &str, b: &str) -> (r: bool)
    ensures
        r == (a@ == b@),
{
    let n = a.unicode_len();
    if n != b.unicode_len() {
        return false;
    }
    let mut i: usize = 0;
    while i < n
        invariant
            i <= n == a@.len() == b@.len(),
            forall|k: int| 0 <= k < i ==> a@[k] == b@[k],
        decreases n - i,
    {
        if a.get_char(i) != b.get_char(i) {
            return false;
        }
        i = i + 1;
    }
    assert(a@ =~= b@);
    true
}


/// The address of an endpoint of a local IPC server.
#[derive(Debug, Clone, Copy, PartialEq, Eq)]
pub struct KyComAddr {
    pub addr: SocketAddress,
    pub endpoint_id: u16,
}

/// The IP address that a URL host designates: a name must be an IPv4
/// address written out, as the `kymux` scheme leaves such hosts unparsed.
pub open spec fn host_ip(h: UrlHostView) -> Option<IpAddress> {
    match h {
        UrlHostView::Domain(d) => match ipv4_of(d) {
            Some(a) => Some(IpAddress::V4(a)),
            None => None,
        },
        UrlHostView::Ipv4(a) => Some(IpAddress::V4(a)),
        UrlHostView::Ipv6(a) => Some(IpAddress::V6(a)),
    }
}

/// The single path segment of `path`, if the path is `/` followed by a
/// segment without `/`.
pub open spec fn single_segment(path: Seq<char>) -> Option<Seq<char>> {
    if path.len() == 0 || path[0] != '/' {
        None
    } else {
        let rest = path.subrange(1, path.len() as int);
        if exists|i: int| 0 <= i < rest.len() && rest[i] == '/' {
            None
        } else {
            Some(rest)
        }
    }
}

/// The endpoint address that `url` designates: a `kymux` URL with an IP
/// host, a port and a single path segment that is the endpoint id in
/// hexadecimal.
pub open spec fn kycom_target(url: Seq<char>) -> Option<KyComAddr> {
    match parsed_url(url) {
        None => None,
        Some(u) => if u.scheme != "kymux"@ {
            None
        } else {
            match (u.host, u.port) {
                (Some(h), Some(port)) => match (host_ip(h), single_segment(u.path)) {
                    (Some(ip), Some(seg)) => match hex_u16_of(seg) {
                        Some(id) => Some(
                            KyComAddr { addr: SocketAddress { ip, port }, endpoint_id: id },
                        ),
                        None => None,
                    },
                    _ => None,
                },
                _ => None,
            }
        },
    }
}

/// Whether `e.kind()` is `std::io::ErrorKind::InvalidData`.
pub uninterp spec fn is_invalid_data(e: std::io::Error) -> bool;

/// `std::io::Error::new(ErrorKind::InvalidData, message)`: an error whose
/// `kind()` is the kind it was made with, as std documents. Its message is
/// `message`, which is not stated.
#[verifier::external_body]
fn invalid_data(message: String) -> (e: std::io::Error)
    ensures
        is_invalid_data(e),
{
    std::io::Error::new(std::io::ErrorKind::InvalidData, message)
}

fn invalid_data_str(message: &str) -> (e: std::io::Error)
    ensures
        is_invalid_data(e),
{
    invalid_data(String::from_str(message))
}

impl KyComAddr {
    pub fn new(addr: SocketAddress, endpoint_id: u16) -> (a: Self)
        ensures
            a == (KyComAddr { addr, endpoint_id }),
    {
        KyComAddr { addr, endpoint_id }
    }

    /// Reads an endpoint address; every refusal is an invalid-data error.
    #[verifier::loop_isolation(false)]
    pub fn parse(url: &str) -> (r: Result<Self, std::io::Error>)
        ensures
            match r {
                Ok(a) => kycom_target(url@) == Some(a),
                Err(e) => kycom_target(url@) is None && is_invalid_data(e),
            },
    {
        let parts = match parse_url(url) {
            Ok(p) => p,
            Err(message) => {
                return Err(invalid_data(message));
            },
        };
        proof {
            reveal_strlit("kymux");
        }
        if !str_eq(parts.scheme.as_str(), "kymux") {
            return Err(invalid_data_str("Invalid scheme"));
        }
        let ip = match &parts.host {
            None => {
                return Err(invalid_data_str("Missing host"));
            },
            Some(UrlHost::Domain(d)) => match parse_ipv4(d.as_str()) {
                Some(a) => IpAddress::V4(a),
                None => {
                    return Err(invalid_data_str("invalid IP address syntax"));
                },
            },
            Some(UrlHost::Ipv4(a)) => IpAddress::V4(*a),
            Some(UrlHost::Ipv6(a)) => IpAddress::V6(*a),
        };
        let port = match parts.port {
            Some(p) => p,
            None => {
                return Err(invalid_data_str("Missing port"));
            },
        };
        let path = parts.path.as_str();
        let len = path.unicode_len();
        if len == 0 || path.get_char(0) != '/' {
            return Err(invalid_data_str("Missing endpoint id"));
        }
        let rest = path.substring_char(1, len);
        let mut i: usize = 0;
        let n = rest.unicode_len();
        while i < n
            invariant
                i <= n == rest@.len(),
                forall|k: int| 0 <= k < i ==> rest@[k] != '/',
            decreases n - i,
        {
            if rest.get_char(i) == '/' {
                assert(rest@[i as int] == '/');
                return Err(invalid_data_str("Expected a single endpoint id"));
            }
            i = i + 1;
        }
        match parse_hex_u16(rest) {
            Ok(id) => Ok(KyComAddr { addr: SocketAddress { ip, port }, endpoint_id: id }),
            Err(e) => Err(
                invalid_data(
                    String::from_str("Invalid endpoint ID (hex): ").concat(e.to_string().as_str()),
                ),
            ),
        }
    }
}


/// A hexadecimal digit in lower case.
pub open spec fn lower_digit(d: nat) -> char {
    if d < 10 {
        (48 + d) as char
    } else {
        (87 + d) as char
    }
}

/// `v` in lower-case hexadecimal, without leading zeros.
pub open spec fn lower_hex(v: nat) -> Seq<char>
    decreases v,
{
    if v < 16 {
        seq![lower_digit(v)]
    } else {
        lower_hex(v / 16).push(lower_digit(v % 16))
    }
}

/// `v` in lower-case hexadecimal digits, without leading zeros, as
/// `format!("{:x}", v)` writes it.
fn lower_hex_string(v: u16) -> (s: String)
    ensures
        s@ == lower_hex(v as nat),
    decreases v,
{
    if v < 16 {
        String::from_str(digit_str(v as u8, false))
    } else {
        let s = lower_hex_string(v / 16).concat(digit_str((v % 16) as u8, false));
        assert(s@ =~= lower_hex((v / 16) as nat).push(lower_digit((v % 16) as nat)));
        s
    }
}

/// Four numbers in dotted decimal.
pub open spec fn dotted(a: nat, b: nat, c: nat, d: nat) -> Seq<char> {
    decimal(a) + "."@ + decimal(b) + "."@ + decimal(c) + "."@ + decimal(d)
}

/// Groups of an IPv6 address in lower-case hexadecimal, separated by `:`.
pub open spec fn groups_text(g: Seq<u16>) -> Seq<char>
    decreases g.len(),
{
    if g.len() == 0 {
        Seq::empty()
    } else if g.len() == 1 {
        lower_hex(g[0] as nat)
    } else {
        groups_text(g.drop_last()) + ":"@ + lower_hex(g.last() as nat)
    }
}

/// The scan for the longest run of zero groups of `g`: the first longest
/// run (start, length), and the run that reaches the end of `g`.
pub open spec fn zero_scan(g: Seq<u16>) -> (int, int, int, int)
    decreases g.len(),
{
    if g.len() == 0 {
        (0, 0, 0, 0)
    } else {
        let (bs, bl, cs, cl) = zero_scan(g.drop_last());
        if g.last() == 0 {
            let ns = if cl == 0 {
                g.len() - 1
            } else {
                cs
            };
            if cl + 1 > bl {
                (ns, cl + 1, ns, cl + 1)
            } else {
                (bs, bl, ns, cl + 1)
            }
        } else {
            (bs, bl, 0, 0)
        }
    }
}

/// An IPv6 address as std writes it: an IPv4-mapped address as `::ffff:`
/// and the dotted IPv4 address; otherwise the groups in lower-case
/// hexadecimal, the first longest run of two or more zero groups written
/// `::`.
pub open spec fn ipv6_text(g: Seq<u16>) -> Seq<char> {
    if g[0] == 0 && g[1] == 0 && g[2] == 0 && g[3] == 0 && g[4] == 0 && g[5] == 0xffff {
        "::ffff:"@ + dotted(
            (g[6] / 256) as nat,
            (g[6] % 256) as nat,
            (g[7] / 256) as nat,
            (g[7] % 256) as nat,
        )
    } else {
        let start = zero_scan(g).0;
        let len = zero_scan(g).1;
        if len > 1 {
            groups_text(g.subrange(0, start)) + "::"@ + groups_text(g.subrange(start + len, 8))
        } else {
            groups_text(g)
        }
    }
}

/// The URL that designates an endpoint: the `kymux` scheme, the address as
/// std writes a socket address (an IPv6 address in brackets), and the
/// endpoint id in upper-case hexadecimal.
pub open spec fn url_text(a: KyComAddr) -> Seq<char> {
    let host = match a.addr.ip {
        IpAddress::V4(b) => dotted(b@[0] as nat, b@[1] as nat, b@[2] as nat, b@[3] as nat),
        IpAddress::V6(g) => "["@ + ipv6_text(g@) + "]"@,
    };
    "kymux://"@ + host + ":"@ + decimal(a.addr.port as nat) + "/"@ + upper_hex(
        a.endpoint_id as nat,
    )
}

fn dotted_string(a: u8, b: u8, c: u8, d: u8) -> (s: String)
    ensures
        s@ == dotted(a as nat, b as nat, c as nat, d as nat),
{
    let s = decimal_string(a as u128).concat(".").concat(decimal_string(b as u128).as_str()).concat(
        ".",
    ).concat(decimal_string(c as u128).as_str()).concat(".").concat(
        decimal_string(d as u128).as_str(),
    );
    s
}

fn groups_string(g: &[u16]) -> (s: String)
    ensures
        s@ == groups_text(g@),
{
    let mut s = String::new();
    let mut i: usize = 0;
    while i < g.len()
        invariant
            i <= g@.len(),
            s@ == groups_text(g@.subrange(0, i as int)),
        decreases g@.len() - i,
    {
        let h = lower_hex_string(g[i]);
        if i == 0 {
            s = h;
        } else {
            s = s.concat(":").concat(h.as_str());
        }
        assert(g@.subrange(0, i as int + 1).drop_last() =~= g@.subrange(0, i as int));
        i = i + 1;
    }
    assert(g@.subrange(0, g@.len() as int) =~= g@);
    s
}

fn ipv6_string(g: &[u16; 8]) -> (s: String)
    ensures
        s@ == ipv6_text(g@),
{
    if g[0] == 0 && g[1] == 0 && g[2] == 0 && g[3] == 0 && g[4] == 0 && g[5] == 0xffff {
        let v4 = dotted_string(
            (g[6] / 256) as u8,
            (g[6] % 256) as u8,
            (g[7] / 256) as u8,
            (g[7] % 256) as u8,
        );
        return String::from_str("::ffff:").concat(v4.as_str());
    }
    let mut best_start: usize = 0;
    let mut best_len: usize = 0;
    let mut cur_start: usize = 0;
    let mut cur_len: usize = 0;
    let mut i: usize = 0;
    while i < 8
        invariant
            i <= 8,
            g@.len() == 8,
            zero_scan(g@.subrange(0, i as int)) == (
                best_start as int,
                best_len as int,
                cur_start as int,
                cur_len as int,
            ),
            best_start + best_len <= i,
            cur_start + cur_len <= i,
        decreases 8 - i,
    {
        assert(g@.subrange(0, i as int + 1).drop_last() =~= g@.subrange(0, i as int));
        if g[i] == 0 {
            if cur_len == 0 {
                cur_start = i;
            }
            cur_len = cur_len + 1;
            if cur_len > best_len {
                best_start = cur_start;
                best_len = cur_len;
            }
        } else {
            cur_start = 0;
            cur_len = 0;
        }
        i = i + 1;
    }
    assert(g@.subrange(0, 8) =~= g@);
    if best_len > 1 {
        let head = groups_string(vstd::slice::slice_subrange(g.as_slice(), 0, best_start));
        let tail = groups_string(vstd::slice::slice_subrange(g.as_slice(), best_start + best_len, 8));
        head.concat("::").concat(tail.as_str())
    } else {
        groups_string(g.as_slice())
    }
}

impl KyComAddr {
    /// The URL that designates this endpoint, as IPC clients are given it.
    pub fn url(&self) -> (s: String)
        ensures
            s@ == url_text(*self),
    {
        let host = match &self.addr.ip {
            IpAddress::V4(b) => dotted_string(b[0], b[1], b[2], b[3]),
            IpAddress::V6(g) => String::from_str("[").concat(ipv6_string(g).as_str()).concat("]"),
        };
        String::from_str("kymux://").concat(host.as_str()).concat(":").concat(
            decimal_string(self.addr.port as u128).as_str(),
        ).concat("/").concat(upper_hex_string(self.endpoint_id).as_str())
    }
}

} // verus!
