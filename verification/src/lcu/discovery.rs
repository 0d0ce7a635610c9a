//! The lockfile, which says how to reach the League client.

use crate::codecs::{base64_encode, base64_of};
use crate::text::{
    concat, decimal, decimal_text, decimal_value, is_digit, is_number, law_decimal_round_trip,
    law_split, parse_decimal, pieces, push_text, split, split_from, string_of, text, trim, trimmed,
};
use vstd::prelude::*;
use vstd::utf8::encode_utf8;

verus! {

/// Why a lockfile was refused.
#[derive(Debug, Clone, Copy, PartialEq, Eq, Structural)]
pub enum LockfileError {
    /// Fewer fields than name, process, port, password and protocol.
    TooFewFields { count: usize },
    BadPort,
    /// More text than can be encoded.
    TooLong,
}

/// The most bytes that are encoded into the `Authorization` header.
pub open spec fn password_limit() -> int {
    isize::MAX / 2
}

/// How to reach the League client.
pub struct LcuInfo {
    pub port: u16,
    /// The whole value of the `Authorization` header.
    pub auth_header: String,
}

/// Where the digits of a port start: behind a plus sign.
pub open spec fn port_digits(s: Seq<char>) -> Seq<char> {
    if s.len() > 0 && s[0] == '+' {
        s.skip(1)
    } else {
        s.skip(0)
    }
}

/// The port that `s` spells out.
pub open spec fn port_of(s: Seq<char>) -> Option<int> {
    let digits = port_digits(s);
    if is_number(digits) && decimal_value(digits) <= u16::MAX {
        Some(decimal_value(digits))
    } else {
        None
    }
}

/// The value of the `Authorization` header for a password.
pub open spec fn auth_header_of(password: Seq<char>) -> Seq<char> {
    "Basic "@ + base64_of(encode_utf8("riot:"@ + password))
}

/// The fields of a lockfile.
pub open spec fn lockfile_fields(content: Seq<char>) -> Seq<Seq<char>> {
    split_from(trimmed(content), ':', 0)
}

/// The value of the `Authorization` header for encoded credentials.
pub fn basic_header(encoded: &str) -> (r: String)
    ensures
        r@ == "Basic "@ + encoded@,
{
    concat("Basic ", encoded)
}

/// Reads the content of a lockfile, `name:pid:port:password:protocol`.
pub fn discover(content: &str) -> (r: Result<LcuInfo, LockfileError>)
    ensures
        ({
            let fields = lockfile_fields(content@);
            if fields.len() < 5 {
                r == Err::<LcuInfo, LockfileError>(
                    LockfileError::TooFewFields { count: fields.len() as usize },
                )
            } else {
                match port_of(fields[2]) {
                    None => r == Err::<LcuInfo, LockfileError>(LockfileError::BadPort),
                    Some(_) if encode_utf8("riot:"@ + fields[3]).len() > password_limit() => r
                        == Err::<LcuInfo, LockfileError>(LockfileError::TooLong),
                    Some(port) => r is Ok && r->Ok_0.port == port && r->Ok_0.auth_header@
                        == auth_header_of(fields[3]),
                }
            }
        }),
{
    let chars = trim(content);
    let parts = split(&chars, ':');
    let ghost fields = lockfile_fields(content@);
    assert(pieces(parts@) == fields);
    assert(fields.len() == parts@.len());
    if parts.len() < 5 {
        return Err(LockfileError::TooFewFields { count: parts.len() });
    }
    assert(fields[2] == parts@[2]@ && fields[3] == parts@[3]@);
    let from: usize = if parts[2].len() > 0 && parts[2][0] == '+' {
        1
    } else {
        0
    };
    let port: u16 = match parse_decimal(&parts[2], from, 0xFFFF) {
        Some(p) => p as u16,
        None => {
            return Err(LockfileError::BadPort);
        },
    };
    let password = string_of(parts[3].as_slice());
    let raw = concat("riot:", password.as_str());
    let raw_bytes = raw.as_str().as_bytes();
    if raw_bytes.len() > isize::MAX as usize / 2 {
        return Err(LockfileError::TooLong);
    }
    let encoded = base64_encode(raw_bytes);
    let auth_header = basic_header(encoded.as_str());
    Ok(LcuInfo { port, auth_header })
}

/// The address of a resource of the League client.
pub open spec fn lcu_url(port: u16, path: Seq<char>) -> Seq<char> {
    "https://127.0.0.1:"@ + decimal_text(port as int) + path
}

pub fn url(port: u16, path: &str) -> (r: String)
    ensures
        r@ == lcu_url(port, path@),
{
    let mut out = text("https://127.0.0.1:");
    push_text(&mut out, decimal(port as u64).as_str());
    push_text(&mut out, path);
    out
}

/// The address of the event socket of the League client.
pub fn socket_url(port: u16) -> (r: String)
    ensures
        r@ == "wss://127.0.0.1:"@ + decimal_text(port as int) + "/"@,
{
    let mut out = text("wss://127.0.0.1:");
    push_text(&mut out, decimal(port as u64).as_str());
    push_text(&mut out, "/");
    out
}

/// The fields of a lockfile are what stands between its colons, without white
/// space around the whole.
pub proof fn law_lockfile_fields(
    content: Seq<char>,
    name: Seq<char>,
    pid: Seq<char>,
    port: Seq<char>,
    password: Seq<char>,
    protocol: Seq<char>,
)
    requires
        trimmed(content) == name + seq![':'] + (pid + seq![':'] + (port + seq![':'] + (password
            + seq![':'] + protocol))),
        forall|i: int| 0 <= i < name.len() ==> name[i] != ':',
        forall|i: int| 0 <= i < pid.len() ==> pid[i] != ':',
        forall|i: int| 0 <= i < port.len() ==> port[i] != ':',
        forall|i: int| 0 <= i < password.len() ==> password[i] != ':',
        forall|i: int| 0 <= i < protocol.len() ==> protocol[i] != ':',
    ensures
        lockfile_fields(content) == seq![name, pid, port, password, protocol],
{
    let d = password + seq![':'] + protocol;
    let c = port + seq![':'] + d;
    let b = pid + seq![':'] + c;
    law_split(name, ':', b);
    law_split(pid, ':', c);
    law_split(port, ':', d);
    law_split(password, ':', protocol);
    law_split(protocol, ':', Seq::empty());
    assert(lockfile_fields(content) =~= seq![name, pid, port, password, protocol]);
}

/// The digits of a port, with or without a plus sign, are read as that port.
pub proof fn law_port(port: u16)
    ensures
        port_of(decimal_text(port as int)) == Some(port as int),
        port_of(seq!['+'] + decimal_text(port as int)) == Some(port as int),
{
    let s = decimal_text(port as int);
    law_decimal_round_trip(port as int);
    assert(s.skip(0) =~= s);
    assert((seq!['+'] + s).skip(1) =~= s);
    assert(is_digit(s[0]));
}

/// A port is a number of at most 16 bits, with or without a plus before it, and
/// nothing else is one.
pub proof fn law_ports_only(s: Seq<char>)
    ensures
        port_of(s) matches Some(p) ==> p <= 65535 && ((is_number(s) && p == decimal_value(s)) || (
        s.len() > 1 && s[0] == '+' && is_number(s.skip(1)) && p == decimal_value(s.skip(1)))),
        is_number(s) && decimal_value(s) > 65535 ==> port_of(s) is None,
        s.len() == 0 ==> port_of(s) is None,
        (exists|i: int| 1 <= i < s.len() && !is_digit(#[trigger] s[i])) ==> port_of(s) is None,
{
    assert(s.skip(0) =~= s);
    if exists|i: int| 1 <= i < s.len() && !is_digit(#[trigger] s[i]) {
        let i = choose|i: int| 1 <= i < s.len() && !is_digit(#[trigger] s[i]);
        assert(s.skip(1)[i - 1] == s[i]);
    }
    if is_number(s) {
        assert(is_digit(s[0]));
    }
}

} // verus!
