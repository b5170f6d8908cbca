//! What the backend serves, and where.

use bytes::Bytes;
use vstd::prelude::*;
use vstd::string::*;
use vstd::utf8::*;

use crate::backend::cli::Mode;
use crate::backend::config::Config;
use crate::net::SocketAddr;
use crate::text;

verus! {

/// The byte buffer of the `bytes` crate.
#[verifier::external_type_specification]
#[verifier::external_body]
pub struct ExBytes(bytes::Bytes);

/// The bytes in a buffer.
pub uninterp spec fn bytes_in(b: Bytes) -> Seq<u8>;

/// Turns a text into a buffer with the conversion of `bytes::Bytes` from a string; claims that the
/// buffer holds the UTF-8 encoding of the text.
#[verifier::external_body]
fn bytes_from(s: String) -> (r: Bytes)
    ensures
        bytes_in(r) == encode_utf8(s@),
{
    Bytes::from(s)
}

/// Returns the content type of every response.
pub fn content_type() -> (r: &'static str)
    ensures
        r@ == "text/plain; charset=utf-8"@,
{
    "text/plain; charset=utf-8"
}

/// Builds the full response body once at startup.
pub fn build_body(content: String) -> (r: Bytes)
    ensures
        bytes_in(r) == encode_utf8("Content: "@ + content@),
{
    let mut body: String = "Content: ".to_owned();
    body.append(content.as_str());
    bytes_from(body)
}

/// Picks the address of the QUIC listener: the first one that the system found.
pub fn resolve_socket_addr(address: &str, port: u16, found: &Vec<SocketAddr>) -> (r: Result<SocketAddr, String>)
    ensures
        match r {
            Ok(a) => found@.len() > 0 && a == found@[0],
            Err(m) => found@.len() == 0 && m@ == "failed to resolve address "@ + address@ + ":"@ + text::decimal(
                port as nat,
            ),
        },
        picked(found@) == (match r {
            Ok(a) => Some(a),
            Err(_) => None,
        }),
{
    if found.len() > 0 {
        return Ok(found[0]);
    }
    let mut message: String = "failed to resolve address ".to_owned();
    message.append(address);
    message.append(":");
    text::push_decimal(&mut message, port as u128);
    Err(message)
}

/// Tells that a protocol is being listened for.
pub fn listening_text(mode: Mode, address: &str, port: u16) -> (r: String)
    ensures
        r@ == match mode {
            Mode::Http => "HTTP listening on "@ + address@ + ":"@ + text::decimal(port as nat),
            Mode::Https => "HTTPS listening on "@ + address@ + ":"@ + text::decimal(port as nat),
            Mode::Http3 => "HTTP3 listening on "@ + address@ + ":"@ + text::decimal(port as nat) + " (UDP/QUIC)"@,
        },
        r@ == listening(mode, address@, port),
{
    let mut out: String = match mode {
        Mode::Http => "HTTP listening on ".to_owned(),
        Mode::Https => "HTTPS listening on ".to_owned(),
        Mode::Http3 => "HTTP3 listening on ".to_owned(),
    };
    out.append(address);
    out.append(":");
    text::push_decimal(&mut out, port as u128);
    match mode {
        Mode::Http3 => {
            out.append(" (UDP/QUIC)");
        },
        _ => {},
    }
    out
}

/// Where a listener has its certificate and key from.
#[derive(Debug, Clone, Copy, PartialEq, Eq, Structural)]
pub enum KeySource {
    /// From its own settings: loaded from files or generated.
    Own,
    /// Those of the HTTPS listener.
    SharedWithHttps,
}

/// The listeners that a config asks for.
#[derive(Debug, Clone, Copy)]
pub struct ServerPlan {
    pub http: u16,
    pub https: Option<u16>,
    pub http3: Option<(u16, KeySource)>,
}

/// Plans the listeners of a config. The HTTP/3 listener uses the certificate of the HTTPS listener when
/// it has no settings of its own.
pub fn plan_servers(cfg: &Config) -> (r: ServerPlan)
    ensures
        r == planned(*cfg),
        r.http == cfg.http.port,
        r.https == (if cfg.https.enabled {
            Some(cfg.https.port)
        } else {
            None
        }),
        r.http3 == (if cfg.http3.enabled {
            Some(
                (
                    cfg.http3.port,
                    if cfg.http3.cert is None && cfg.http3.key is None && cfg.https.enabled {
                        KeySource::SharedWithHttps
                    } else {
                        KeySource::Own
                    },
                ),
            )
        } else {
            None
        }),
        r.https is Some <==> cfg.https.enabled,
        r.http3 is Some <==> cfg.http3.enabled,
        r.http3 matches Some((port, source)) ==> {
            &&& port == cfg.http3.port
            &&& source == KeySource::SharedWithHttps ==> r.https is Some
            &&& cfg.http3.cert is Some || cfg.http3.key is Some ==> source == KeySource::Own
            &&& cfg.http3.cert is None && cfg.http3.key is None && r.https is Some ==> source
                == KeySource::SharedWithHttps
        },
{
    let https: Option<u16> = if cfg.https.enabled {
        Some(cfg.https.port)
    } else {
        None
    };
    let http3: Option<(u16, KeySource)> = if cfg.http3.enabled {
        if cfg.http3.cert.is_none() && cfg.http3.key.is_none() && cfg.https.enabled {
            Some((cfg.http3.port, KeySource::SharedWithHttps))
        } else {
            Some((cfg.http3.port, KeySource::Own))
        }
    } else {
        None
    };
    ServerPlan { http: cfg.http.port, https, http3 }
}

/// The first of the addresses found, if any.
pub open spec fn picked(found: Seq<SocketAddr>) -> Option<SocketAddr> {
    if found.len() > 0 {
        Some(found[0])
    } else {
        None
    }
}

/// The address that was found first counts: more of them behind it change nothing, and one alone is taken.
pub proof fn lemma_first_address_counts(a: Seq<SocketAddr>, b: Seq<SocketAddr>, addr: SocketAddr)
    ensures
        a.len() > 0 ==> picked(a + b) == picked(a),
        picked(seq![addr]) == Some(addr),
        picked(a) is None <==> a.len() == 0,
{
}

/// The listeners that a config asks for.
pub open spec fn planned(cfg: Config) -> ServerPlan {
    ServerPlan {
        http: cfg.http.port,
        https: if cfg.https.enabled {
            Some(cfg.https.port)
        } else {
            None
        },
        http3: if !cfg.http3.enabled {
            None
        } else if cfg.http3.cert is None && cfg.http3.key is None && cfg.https.enabled {
            Some((cfg.http3.port, KeySource::SharedWithHttps))
        } else {
            Some((cfg.http3.port, KeySource::Own))
        },
    }
}

/// HTTP is always served; HTTPS and HTTP/3 are served where they are enabled, on their own ports. The certificate of
/// HTTPS is shared only where HTTPS is served and HTTP/3 has none of its own, and always there.
pub proof fn lemma_listeners(cfg: Config)
    ensures
        planned(cfg).http == cfg.http.port,
        planned(cfg).https is Some <==> cfg.https.enabled,
        planned(cfg).http3 is Some <==> cfg.http3.enabled,
        planned(cfg).https matches Some(port) ==> port == cfg.https.port,
        planned(cfg).http3 matches Some((port, source)) ==> {
            &&& port == cfg.http3.port
            &&& source == KeySource::SharedWithHttps ==> planned(cfg).https is Some && cfg.http3.cert is None
                && cfg.http3.key is None
            &&& source == KeySource::Own ==> planned(cfg).https is None || cfg.http3.cert is Some || cfg.http3.key is Some
        },
{
}

/// The name of a protocol in messages.
pub open spec fn protocol_name(mode: Mode) -> Seq<char> {
    match mode {
        Mode::Http => "HTTP"@,
        Mode::Https => "HTTPS"@,
        Mode::Http3 => "HTTP3"@,
    }
}

/// The message that a protocol is being listened for.
pub open spec fn listening(mode: Mode, address: Seq<char>, port: u16) -> Seq<char> {
    match mode {
        Mode::Http => "HTTP listening on "@ + address + ":"@ + text::decimal(port as nat),
        Mode::Https => "HTTPS listening on "@ + address + ":"@ + text::decimal(port as nat),
        Mode::Http3 => "HTTP3 listening on "@ + address + ":"@ + text::decimal(port as nat) + " (UDP/QUIC)"@,
    }
}

/// Every message starts with the name of its protocol and goes on with the address and the port, and that of HTTP/3
/// alone adds that it is served over QUIC.
pub proof fn lemma_listening_message(mode: Mode, address: Seq<char>, port: u16)
    ensures
        mode == Mode::Http3 ==> listening(mode, address, port) == protocol_name(mode) + " listening on "@ + address + ":"@
            + text::decimal(port as nat) + " (UDP/QUIC)"@,
        mode != Mode::Http3 ==> listening(mode, address, port) == protocol_name(mode) + " listening on "@ + address + ":"@
            + text::decimal(port as nat),
{
    reveal_strlit("HTTP");
    reveal_strlit("HTTPS");
    reveal_strlit("HTTP3");
    reveal_strlit(" listening on ");
    reveal_strlit("HTTP listening on ");
    reveal_strlit("HTTPS listening on ");
    reveal_strlit("HTTP3 listening on ");
    assert("HTTP listening on "@ =~= "HTTP"@ + " listening on "@);
    assert("HTTPS listening on "@ =~= "HTTPS"@ + " listening on "@);
    assert("HTTP3 listening on "@ =~= "HTTP3"@ + " listening on "@);
}

} // verus!
