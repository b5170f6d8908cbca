//! Server names of TLS clients.

use vstd::prelude::*;
use vstd::string::*;

use crate::net::IpAddr;

verus! {

/// Whether `rustls::pki_types::ServerName` accepts a text.
pub uninterp spec fn is_server_name(text: Seq<char>) -> bool;

/// Checks a name with the conversion of `rustls::pki_types::ServerName` from a string; claims that the
/// outcome depends on the text alone.
#[verifier::external_body]
fn parses_as_server_name(text: &str) -> (r: bool)
    ensures
        r == is_server_name(text@),
{
    rustls::pki_types::ServerName::try_from(text.to_string()).is_ok()
}

/// The name presented in a TLS handshake.
#[derive(Debug, Clone)]
pub enum ServerName {
    Name(String),
    /// An address, which is not sent as the (hostname-only) SNI extension.
    Ip(IpAddr),
}

/// The given server name is not one.
#[derive(Debug, Clone, Copy, PartialEq, Eq, Structural)]
pub struct InvalidServerName;

/// TLS client settings of the HTTP/1 engine.
#[derive(Debug, Clone)]
pub struct Tls {
    pub server_name: ServerName,
}

impl Tls {
    /// Chooses the server name: the given one, or else the target address.
    pub fn new(server_name: Option<&str>, ip: IpAddr) -> (r: Result<Self, InvalidServerName>)
        ensures
            match server_name {
                None => r matches Ok(t) && t.server_name == ServerName::Ip(ip),
                Some(name) => if is_server_name(name@) {
                    r matches Ok(t) && t.server_name matches ServerName::Name(n) && n@ == name@
                } else {
                    r is Err
                },
            },
            r is Ok <==> server_name is None || is_server_name(server_name->0@),
            r matches Ok(t) ==> presented(t.server_name) == chosen(
                match server_name {
                    Some(name) => Some(name@),
                    None => None,
                },
                ip,
            ),
    {
        match server_name {
            None => Ok(Tls { server_name: ServerName::Ip(ip) }),
            Some(name) => {
                if parses_as_server_name(name) {
                    Ok(Tls { server_name: ServerName::Name(name.to_owned()) })
                } else {
                    Err(InvalidServerName)
                }
            },
        }
    }
}

/// What is presented in a handshake: a name, or an address.
pub open spec fn presented(name: ServerName) -> (Option<Seq<char>>, Option<IpAddr>) {
    match name {
        ServerName::Name(n) => (Some(n@), None),
        ServerName::Ip(ip) => (None, Some(ip)),
    }
}

/// What a client presents, given the name in its settings and the address of its target.
pub open spec fn chosen(name: Option<Seq<char>>, ip: IpAddr) -> (Option<Seq<char>>, Option<IpAddr>) {
    if name is Some {
        (name, None)
    } else {
        (None, Some(ip))
    }
}

/// A name in the settings is presented as it is, whatever the address; the address is presented only without a name.
pub proof fn lemma_name_comes_first(name: Seq<char>, a: IpAddr, b: IpAddr)
    ensures
        chosen(Some(name), a) == chosen(Some(name), b),
        chosen(Some(name), a).0 == Some(name),
        chosen(None, a).0 is None && chosen(None, a).1 == Some(a),
{
}

} // verus!
