//! Routing and translation rules of the preview proxy: hostname parsing,
//! port choice, method and status translation, and the frame-by-frame
//! behaviour of the WebSocket relay.

use vstd::prelude::*;
use vstd::string::*;
use crate::session::DEFAULT_PREVIEW_PORT;
use crate::strutil::str_eq;

verus! {

/// Upper bound on a proxied request body, in bytes.
pub const MAX_PROXY_BODY_BYTES: usize = 10 * 1024 * 1024;

/// Whether a request body may be relayed.
pub fn body_within_limit(len: usize) -> (r: bool)
    ensures
        r == (len <= MAX_PROXY_BODY_BYTES),
{
    len <= MAX_PROXY_BODY_BYTES
}

/// A backend status code is forwarded unchanged when it lies in the valid
/// HTTP range 100..=599; anything else collapses to 502 (bad gateway).
pub fn collapse_status(code: u16) -> (r: u16)
    ensures
        100 <= code <= 599 ==> r == code,
        !(100 <= code <= 599) ==> r == 502,
{
    if 100 <= code && code <= 599 {
        code
    } else {
        502
    }
}

/// The session-ID prefix of a preview host of the shape `<id>.<domain>`.
pub open spec fn strip_host(host: Seq<char>, domain: Seq<char>) -> Option<Seq<char>> {
    if host.len() > domain.len() && host.subrange(
        host.len() - domain.len(),
        host.len() as int,
    ) == domain && host[host.len() - domain.len() - 1] == '.' {
        Option::Some(host.take(host.len() - domain.len() - 1))
    } else {
        Option::None
    }
}

/// Extracts the `<id>` of `<id>.<domain>`, when the host has that shape.
pub fn host_prefix(host: &String, domain: &String) -> (r: Option<String>)
    ensures
        match r {
            Some(id) => strip_host(host@, domain@) == Some(id@),
            None => strip_host(host@, domain@) is None,
        },
{
    let hl = host.as_str().unicode_len();
    let dl = domain.as_str().unicode_len();
    if hl <= dl {
        return None;
    }
    if host.as_str().get_char(hl - dl - 1) != '.' {
        return None;
    }
    let suffix = host.as_str().substring_char(hl - dl, hl);
    if !str_eq(suffix, domain.as_str()) {
        return None;
    }
    let id = host.as_str().substring_char(0, hl - dl - 1).to_owned();
    proof {
        assert(host@.take(hl - dl - 1) =~= id@);
    }
    Some(id)
}

/// The port the proxy dials for a session: its first registered port, or
/// the documented fallback when none is registered.
pub open spec fn first_port_or_default(ports: Seq<u16>) -> u16 {
    if ports.len() > 0 {
        ports[0]
    } else {
        DEFAULT_PREVIEW_PORT
    }
}

/// The HTTP methods the proxy can reissue.
#[derive(Clone, Copy, Debug, PartialEq, Eq, Structural)]
pub enum ProxyMethod {
    Get,
    Post,
    Put,
    Delete,
    Patch,
    Head,
    Options,
}

/// The method the proxy reissues for an inbound method name; any name
/// other than the seven it covers collapses to GET (a documented quirk).
pub open spec fn method_for(s: Seq<char>) -> ProxyMethod {
    if s == "POST"@ {
        ProxyMethod::Post
    } else if s == "PUT"@ {
        ProxyMethod::Put
    } else if s == "DELETE"@ {
        ProxyMethod::Delete
    } else if s == "PATCH"@ {
        ProxyMethod::Patch
    } else if s == "HEAD"@ {
        ProxyMethod::Head
    } else if s == "OPTIONS"@ {
        ProxyMethod::Options
    } else {
        ProxyMethod::Get
    }
}

/// Translates an inbound method name.
pub fn method_of(s: &str) -> (m: ProxyMethod)
    ensures
        m == method_for(s@),
{
    if str_eq(s, "POST") {
        ProxyMethod::Post
    } else if str_eq(s, "PUT") {
        ProxyMethod::Put
    } else if str_eq(s, "DELETE") {
        ProxyMethod::Delete
    } else if str_eq(s, "PATCH") {
        ProxyMethod::Patch
    } else if str_eq(s, "HEAD") {
        ProxyMethod::Head
    } else if str_eq(s, "OPTIONS") {
        ProxyMethod::Options
    } else {
        ProxyMethod::Get
    }
}

/// Whether a request header is forwarded to the backend: all are, except
/// `Host` (header names compare in their lowercase wire form).
pub fn forward_header(name: &str) -> (r: bool)
    ensures
        r == (name@ != "host"@),
{
    !str_eq(name, "host")
}

/// One WebSocket frame crossing the relay.
pub enum WsFrame {
    Text(String),
    Binary(Vec<u8>),
    Ping(Vec<u8>),
    Pong(Vec<u8>),
    Close,
}

/// A frame arriving from the backend; `Other` stands for raw frames the
/// relay does not translate.
pub enum BackendFrame {
    Text(String),
    Binary(Vec<u8>),
    Ping(Vec<u8>),
    Pong(Vec<u8>),
    Close,
    Other,
}

/// What the relay does with one inbound frame.
pub enum RelayStep {
    /// Send this frame on, unchanged and in order.
    Forward(WsFrame),
    /// Drop this frame and keep relaying.
    Skip,
    /// End both directions of the relay.
    Stop,
}

/// One step of the client-to-backend relay: a close ends the relay and
/// every other frame is forwarded unchanged, so content and order are
/// preserved.
pub fn client_relay_step(f: WsFrame) -> (r: RelayStep)
    ensures
        f is Close <==> r is Stop,
        !(f is Close) ==> r == RelayStep::Forward(f),
{
    match f {
        WsFrame::Close => RelayStep::Stop,
        other => RelayStep::Forward(other),
    }
}

/// The frames the client-to-backend relay delivers for an inbound frame
/// sequence: everything before the first close, unchanged. The relay loop
/// applies `client_relay_step` to each inbound frame in arrival order and
/// sends each forwarded frame before taking the next, so its deliveries
/// follow this sequence.
pub open spec fn client_relay_output(frames: Seq<WsFrame>) -> Seq<WsFrame>
    decreases frames.len(),
{
    if frames.len() == 0 {
        Seq::empty()
    } else if frames.first() is Close {
        Seq::empty()
    } else {
        seq![frames.first()] + client_relay_output(frames.drop_first())
    }
}

/// Law: the relay delivers a prefix of the inbound frames — each delivered
/// frame is the inbound frame at the same position, unchanged and exactly
/// once, so content and order are preserved within the direction.
pub proof fn lemma_relay_in_order(frames: Seq<WsFrame>, i: int)
    requires
        0 <= i < client_relay_output(frames).len(),
    ensures
        i < frames.len(),
        client_relay_output(frames)[i] == frames[i],
        !(frames[i] is Close),
    decreases frames.len(),
{
    if frames.len() > 0 && !(frames.first() is Close) && i > 0 {
        lemma_relay_in_order(frames.drop_first(), i - 1);
    }
}

/// One step of the backend-to-client relay: a close ends the relay, raw
/// frames are skipped, everything else is forwarded unchanged.
pub fn backend_relay_step(f: BackendFrame) -> (r: RelayStep)
    ensures
        f is Close <==> r is Stop,
        f is Other <==> r is Skip,
        match f {
            BackendFrame::Text(t) => r == RelayStep::Forward(WsFrame::Text(t)),
            BackendFrame::Binary(b) => r == RelayStep::Forward(WsFrame::Binary(b)),
            BackendFrame::Ping(p) => r == RelayStep::Forward(WsFrame::Ping(p)),
            BackendFrame::Pong(p) => r == RelayStep::Forward(WsFrame::Pong(p)),
            BackendFrame::Close => true,
            BackendFrame::Other => true,
        },
{
    match f {
        BackendFrame::Text(t) => RelayStep::Forward(WsFrame::Text(t)),
        BackendFrame::Binary(b) => RelayStep::Forward(WsFrame::Binary(b)),
        BackendFrame::Ping(p) => RelayStep::Forward(WsFrame::Ping(p)),
        BackendFrame::Pong(p) => RelayStep::Forward(WsFrame::Pong(p)),
        BackendFrame::Close => RelayStep::Stop,
        BackendFrame::Other => RelayStep::Skip,
    }
}

/// The health probe body.
pub fn health() -> (r: &'static str)
    ensures
        r@ == "OK"@,
{
    "OK"
}

} // verus!
