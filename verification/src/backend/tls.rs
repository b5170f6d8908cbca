//! Certificates and keys of the backend.

use std::sync::Arc;

use rustls::pki_types::{CertificateDer, PrivateKeyDer, PrivatePkcs1KeyDer, PrivatePkcs8KeyDer, PrivateSec1KeyDer};
use vstd::prelude::*;
use vstd::string::*;

verus! {

/// Amount of early data accepted over QUIC.
pub const MAX_EARLY_DATA: u32 = 0xffff_ffff;

/// The encoding of a private key.
#[derive(Debug, Clone, Copy, PartialEq, Eq, Structural)]
pub enum KeyKind {
    Pkcs1,
    Pkcs8,
    Sec1,
}

/// A private key in DER form.
#[derive(Debug, Clone)]
pub struct PrivateKey {
    pub kind: KeyKind,
    pub der: Vec<u8>,
}

/// Certificate chain, in DER form, and private key shared by the TCP and QUIC TLS configs.
#[derive(Debug, Clone)]
pub struct CertKey {
    pub cert_chain: Vec<Vec<u8>>,
    pub key: PrivateKey,
}

/// What came of reading a PEM file.
#[derive(Debug, Clone)]
pub enum PemData {
    Bytes(Vec<u8>),
    /// The file cannot be opened, with the error number of the system.
    NotOpened(i32),
    /// The file was opened and cannot be read, for the given reason.
    NotRead(String),
}

/// A configured PEM file.
#[derive(Debug, Clone)]
pub struct PemFile {
    pub path: String,
    pub data: PemData,
}

/// Why there is no certificate and key.
#[derive(Debug, Clone)]
pub enum TlsError {
    InvalidInput(String),
    InvalidData(String),
    Io(i32),
}

/// The certificates that `rustls_pemfile::certs` finds in PEM data, or the text of the first error.
pub uninterp spec fn pem_certs(pem: Seq<u8>) -> Result<Seq<Seq<u8>>, Seq<char>>;

/// The private key that `rustls_pemfile::private_key` finds in PEM data, if any, or the text of the
/// error.
pub uninterp spec fn pem_key(pem: Seq<u8>) -> Result<Option<(KeyKind, Seq<u8>)>, Seq<char>>;

/// The contents of the given certificates.
pub open spec fn ders(v: Seq<Vec<u8>>) -> Seq<Seq<u8>> {
    Seq::new(v.len(), |i: int| v[i]@)
}

/// Reads the certificates in PEM data with `rustls_pemfile::certs` up to the first error; claims that
/// the outcome depends on the data alone.
#[verifier::external_body]
fn read_certs(pem: &[u8]) -> (r: Result<Vec<Vec<u8>>, String>)
    ensures
        match r {
            Ok(v) => pem_certs(pem@) == Ok::<Seq<Seq<u8>>, Seq<char>>(ders(v@)),
            Err(m) => pem_certs(pem@) == Err::<Seq<Seq<u8>>, Seq<char>>(m@),
        },
{
    let mut rd = pem;
    rustls_pemfile::certs(&mut rd).map(|c| c.map(|d| d.to_vec()).map_err(|e| e.to_string())).collect()
}

/// Reads the first private key in PEM data with `rustls_pemfile::private_key`; claims that the outcome
/// depends on the data alone.
#[verifier::external_body]
fn read_key(pem: &[u8]) -> (r: Result<Option<PrivateKey>, String>)
    ensures
        match r {
            Ok(None) => pem_key(pem@) == Ok::<Option<(KeyKind, Seq<u8>)>, Seq<char>>(None),
            Ok(Some(k)) => pem_key(pem@) == Ok::<Option<(KeyKind, Seq<u8>)>, Seq<char>>(Some((k.kind, k.der@))),
            Err(m) => pem_key(pem@) == Err::<Option<(KeyKind, Seq<u8>)>, Seq<char>>(m@),
        },
{
    let mut rd = pem;
    let key = rustls_pemfile::private_key(&mut rd).map_err(|e| e.to_string())?;
    Ok(key.map(|k| PrivateKey {
        kind: match &k {
            PrivateKeyDer::Pkcs1(_) => KeyKind::Pkcs1,
            PrivateKeyDer::Sec1(_) => KeyKind::Sec1,
            _ => KeyKind::Pkcs8,
        },
        der: k.secret_der().to_vec(),
    }))
}

/// Whether a chain and a PKCS #8 key are a self-signed certificate, with the given name as its only subject
/// alternative name, and its private key, as `rcgen::generate_simple_self_signed` makes them.
pub uninterp spec fn made_for(chain: Seq<Seq<u8>>, der: Seq<u8>, name: Seq<char>) -> bool;

/// Makes a self-signed certificate for the given name with `rcgen::generate_simple_self_signed`.
///
/// Claims that there is one certificate, made for the name, with its PKCS #8 key. The key is random, and
/// the bytes of the two are left unsaid.
#[verifier::external_body]
fn self_signed(name: &str) -> (r: Result<CertKey, String>)
    ensures
        r matches Ok(c) ==> c.cert_chain@.len() == 1 && c.key.kind == KeyKind::Pkcs8,
        r matches Ok(c) ==> made_for(ders(c.cert_chain@), c.key.der@, name@),
{
    let made = rcgen::generate_simple_self_signed(vec![name.to_string()]).map_err(|e| e.to_string())?;
    let key = PrivateKey { kind: KeyKind::Pkcs8, der: made.key_pair.serialize_der() };
    Ok(CertKey { cert_chain: vec![made.cert.der().to_vec()], key })
}

/// The message for a file without what it should hold.
pub open spec fn none_found(what: Seq<char>, path: Seq<char>) -> Seq<char> {
    "no "@ + what + " found in "@ + path
}

fn none_found_text(what: &str, path: &str) -> (r: String)
    ensures
        r@ == none_found(what@, path@),
{
    let mut out: String = "no ".to_owned();
    out.append(what);
    out.append(" found in ");
    out.append(path);
    out
}

/// The certificates in PEM data, or the reason why the data could not be read.
pub open spec fn certs_in(data: PemData) -> Result<Seq<Seq<u8>>, Seq<char>> {
    match data {
        PemData::Bytes(b) => pem_certs(b@),
        PemData::NotRead(m) => Err(m@),
        PemData::NotOpened(_) => Err(Seq::empty()),
    }
}

/// The key in PEM data, or the reason why the data could not be read.
pub open spec fn key_in(data: PemData) -> Result<Option<(KeyKind, Seq<u8>)>, Seq<char>> {
    match data {
        PemData::Bytes(b) => pem_key(b@),
        PemData::NotRead(m) => Err(m@),
        PemData::NotOpened(_) => Err(Seq::empty()),
    }
}

/// Whether a result is the error with the given kind of payload.
pub open spec fn is_invalid_data(r: Result<CertKey, TlsError>, m: Seq<char>) -> bool {
    r matches Err(TlsError::InvalidData(text)) && text@ == m
}

/// Whether `r` is what loading the pair of files comes to, given what was found in them.
///
/// Both files are opened before either is parsed, the certificate first. There has to be a certificate
/// and a key.
pub open spec fn loaded(
    r: Result<CertKey, TlsError>,
    cert: PemFile,
    key: PemFile,
    certs: Result<Seq<Seq<u8>>, Seq<char>>,
    found: Result<Option<(KeyKind, Seq<u8>)>, Seq<char>>,
) -> bool {
    if cert.data is NotOpened {
        r == Err::<CertKey, TlsError>(TlsError::Io(cert.data->NotOpened_0))
    } else if key.data is NotOpened {
        r == Err::<CertKey, TlsError>(TlsError::Io(key.data->NotOpened_0))
    } else {
        match certs {
            Err(m) => is_invalid_data(r, m),
            Ok(chain) => if chain.len() == 0 {
                is_invalid_data(r, none_found("certificates"@, cert.path@))
            } else {
                match found {
                    Err(m) => is_invalid_data(r, m),
                    Ok(None) => is_invalid_data(r, none_found("private key"@, key.path@)),
                    Ok(Some((kind, der))) => r matches Ok(c) && ders(c.cert_chain@) == chain && c.key.kind == kind
                        && c.key.der@ == der,
                }
            },
        }
    }
}

/// Combines what was found in a pair of files.
pub fn combine(
    cert: &PemFile,
    key: &PemFile,
    certs: Result<Vec<Vec<u8>>, String>,
    found: Result<Option<PrivateKey>, String>,
) -> (r: Result<CertKey, TlsError>)
    ensures
        loaded(
            r,
            *cert,
            *key,
            match certs {
                Ok(v) => Ok(ders(v@)),
                Err(m) => Err(m@),
            },
            match found {
                Ok(Some(k)) => Ok(Some((k.kind, k.der@))),
                Ok(None) => Ok(None),
                Err(m) => Err(m@),
            },
        ),
{
    if let PemData::NotOpened(e) = &cert.data {
        return Err(TlsError::Io(*e));
    }
    if let PemData::NotOpened(e) = &key.data {
        return Err(TlsError::Io(*e));
    }
    let cert_chain: Vec<Vec<u8>> = match certs {
        Err(m) => {
            return Err(TlsError::InvalidData(m));
        },
        Ok(v) => v,
    };
    if cert_chain.len() == 0 {
        return Err(TlsError::InvalidData(none_found_text("certificates", cert.path.as_str())));
    }
    match found {
        Err(m) => Err(TlsError::InvalidData(m)),
        Ok(None) => Err(TlsError::InvalidData(none_found_text("private key", key.path.as_str()))),
        Ok(Some(k)) => Ok(CertKey { cert_chain, key: k }),
    }
}

/// Loads the certificate and key from files, or generates them on the fly.
pub fn get_cert_and_key(cert: Option<&PemFile>, key: Option<&PemFile>) -> (r: Result<CertKey, TlsError>)
    ensures
        match (cert, key) {
            (None, None) => match r {
                Ok(c) => c.cert_chain@.len() == 1 && c.key.kind == KeyKind::Pkcs8 && made_for(
                    ders(c.cert_chain@),
                    c.key.der@,
                    "localhost"@,
                ),
                Err(e) => e is InvalidData,
            },
            (Some(c), Some(k)) => loaded(r, *c, *k, certs_in(c.data), key_in(k.data)),
            _ => r matches Err(TlsError::InvalidInput(m)) && m@
                == "certificate and private key must be configured together"@,
        },
{
    match (cert, key) {
        (None, None) => match self_signed("localhost") {
            Ok(c) => Ok(c),
            Err(m) => Err(TlsError::InvalidData(m)),
        },
        (Some(c), Some(k)) => {
            let certs: Result<Vec<Vec<u8>>, String> = match &c.data {
                PemData::Bytes(b) => read_certs(b.as_slice()),
                PemData::NotRead(m) => Err(m.as_str().to_owned()),
                PemData::NotOpened(_) => Err(String::new()),
            };
            let found: Result<Option<PrivateKey>, String> = match &k.data {
                PemData::Bytes(b) => read_key(b.as_slice()),
                PemData::NotRead(m) => Err(m.as_str().to_owned()),
                PemData::NotOpened(_) => Err(String::new()),
            };
            combine(c, k, certs, found)
        },
        _ => Err(TlsError::InvalidInput("certificate and private key must be configured together".to_owned())),
    }
}

/// What a TLS listener is set up with.
#[derive(Debug, Clone)]
pub struct ServerTls {
    pub cert_key: CertKey,
    /// The protocols to negotiate, the preferred one first.
    pub alpn_protocols: Vec<Vec<u8>>,
    /// How many bytes of early data to accept.
    pub max_early_data_size: u32,
}

#[verifier::external_type_specification]
#[verifier::external_body]
pub struct ExRustlsServerConfig(rustls::ServerConfig);

#[verifier::external_type_specification]
#[verifier::external_body]
pub struct ExQuinnServerConfig(quinn::ServerConfig);

/// Whether rustls, with its ring provider, takes a chain of certificates with a private key for a server,
/// or the text of its error.
pub uninterp spec fn accepted_pair(chain: Seq<Seq<u8>>, kind: KeyKind, der: Seq<u8>) -> Result<(), Seq<char>>;

/// The protocols that a configuration negotiates, its field `alpn_protocols`.
pub uninterp spec fn alpn_of(c: rustls::ServerConfig) -> Seq<Seq<u8>>;

/// How many bytes of early data a configuration accepts, its field `max_early_data_size`.
pub uninterp spec fn early_data_of(c: rustls::ServerConfig) -> u32;

/// The certificate chain that a configuration serves, and the kind and the bytes of the private key that it
/// serves it with.
pub uninterp spec fn identity_of(c: rustls::ServerConfig) -> (Seq<Seq<u8>>, KeyKind, Seq<u8>);

/// Whether the cipher suites of a configuration's provider hold one for the first packets of QUIC.
pub uninterp spec fn has_quic_suite(c: rustls::ServerConfig) -> bool;

/// The protocols that the TLS configuration inside a QUIC one negotiates.
pub uninterp spec fn quic_alpn_of(c: quinn::ServerConfig) -> Seq<Seq<u8>>;

/// How many bytes of early data the TLS configuration inside a QUIC one accepts.
pub uninterp spec fn quic_early_data_of(c: quinn::ServerConfig) -> u32;

/// The certificate chain and the private key that the TLS configuration inside a QUIC one serves.
pub uninterp spec fn quic_identity_of(c: quinn::ServerConfig) -> (Seq<Seq<u8>>, KeyKind, Seq<u8>);

/// What a listener with the given certificate chain and key serves.
pub open spec fn identity(keys: CertKey) -> (Seq<Seq<u8>>, KeyKind, Seq<u8>) {
    (ders(keys.cert_chain@), keys.key.kind, keys.key.der@)
}

/// What rustls says of a certificate chain and its key.
pub open spec fn accepted(keys: CertKey) -> Result<(), Seq<char>> {
    accepted_pair(ders(keys.cert_chain@), keys.key.kind, keys.key.der@)
}

/// Makes a server configuration with `rustls::ServerConfig::builder_with_provider` for the ring provider,
/// with the default protocol versions, no client authentication and a single certificate
/// (`with_single_cert`), and sets the protocols and the early data size in it.
///
/// Claims that whether there is a configuration depends on the chain and the key alone, that it holds this
/// chain and this key, the protocols and the early data size, and that the ring provider has a cipher suite for QUIC. What a
/// configuration then does in a handshake is left unsaid.
#[verifier::external_body]
fn make_server_config(tls: ServerTls) -> (r: Result<rustls::ServerConfig, String>)
    ensures
        accepted_pair(ders(tls.cert_key.cert_chain@), tls.cert_key.key.kind, tls.cert_key.key.der@) == match r {
            Ok(_) => Ok::<(), Seq<char>>(()),
            Err(m) => Err(m@),
        },
        r matches Ok(c) ==> alpn_of(c) == ders(tls.alpn_protocols@) && early_data_of(c) == tls.max_early_data_size,
        r matches Ok(c) ==> identity_of(c) == (
            ders(tls.cert_key.cert_chain@),
            tls.cert_key.key.kind,
            tls.cert_key.key.der@,
        ),
        r matches Ok(c) ==> has_quic_suite(c),
{
    let chain = tls.cert_key.cert_chain.into_iter().map(CertificateDer::from).collect();
    let der = tls.cert_key.key.der;
    let key = match tls.cert_key.key.kind {
        KeyKind::Pkcs1 => PrivatePkcs1KeyDer::from(der).into(),
        KeyKind::Pkcs8 => PrivatePkcs8KeyDer::from(der).into(),
        KeyKind::Sec1 => PrivateSec1KeyDer::from(der).into(),
    };
    let provider = Arc::new(rustls::crypto::ring::default_provider());
    let builder = rustls::ServerConfig::builder_with_provider(provider).with_safe_default_protocol_versions();
    let builder = builder.map_err(|e| e.to_string())?.with_no_client_auth();
    let mut config = builder.with_single_cert(chain, key).map_err(|e| e.to_string())?;
    config.alpn_protocols = tls.alpn_protocols;
    config.max_early_data_size = tls.max_early_data_size;
    Ok(config)
}

/// Makes a QUIC server configuration of a TLS one with `quinn::crypto::rustls::QuicServerConfig::try_from`
/// and `quinn::ServerConfig::with_crypto`.
///
/// Claims that the conversion fails if and only if there is no cipher suite for the first packets, and
/// that the TLS configuration is handed on. The QUIC configuration also holds a random key, of which
/// nothing is said.
#[verifier::external_body]
fn make_quic_config(tls: rustls::ServerConfig) -> (r: Result<quinn::ServerConfig, String>)
    ensures
        r is Ok <==> has_quic_suite(tls),
        r matches Ok(c) ==> quic_alpn_of(c) == alpn_of(tls) && quic_early_data_of(c) == early_data_of(tls),
        r matches Ok(c) ==> quic_identity_of(c) == identity_of(tls),
{
    let crypto = quinn::crypto::rustls::QuicServerConfig::try_from(tls).map_err(|e| e.to_string())?;
    Ok(quinn::ServerConfig::with_crypto(Arc::new(crypto)))
}

impl ServerTls {
    /// The set-up of a listener over TCP: no protocol is negotiated, and no early data accepted.
    pub fn tcp(cert_key: CertKey) -> (r: Self)
        ensures
            r.cert_key == cert_key,
            r.alpn_protocols@ == Seq::<Vec<u8>>::empty(),
            r.max_early_data_size == 0,
    {
        ServerTls { cert_key, alpn_protocols: Vec::new(), max_early_data_size: 0 }
    }

    /// The set-up of a listener over QUIC: HTTP/3 is negotiated, and any early data accepted.
    pub fn quic(cert_key: CertKey) -> (r: Self)
        ensures
            r.cert_key == cert_key,
            ders(r.alpn_protocols@) == seq![seq!['h' as u8, '3' as u8]],
            r.max_early_data_size == MAX_EARLY_DATA,
    {
        let mut h3: Vec<u8> = Vec::new();
        h3.push('h' as u8);
        h3.push('3' as u8);
        let mut alpn_protocols: Vec<Vec<u8>> = Vec::new();
        alpn_protocols.push(h3);
        assert(alpn_protocols@[0]@ =~= seq!['h' as u8, '3' as u8]);
        assert(ders(alpn_protocols@) =~= seq![seq!['h' as u8, '3' as u8]]);
        ServerTls { cert_key, alpn_protocols, max_early_data_size: MAX_EARLY_DATA }
    }

    /// Makes the configuration.
    pub fn build(self) -> (r: Result<rustls::ServerConfig, TlsError>)
        ensures
            match accepted(self.cert_key) {
                Ok(_) => r matches Ok(c) && alpn_of(c) == ders(self.alpn_protocols@) && early_data_of(c)
                    == self.max_early_data_size && identity_of(c) == identity(self.cert_key) && has_quic_suite(c),
                Err(m) => r matches Err(TlsError::InvalidData(text)) && text@ == m,
            },
    {
        match make_server_config(self) {
            Ok(config) => Ok(config),
            Err(m) => Err(TlsError::InvalidData(m)),
        }
    }
}

/// Builds the TLS configuration of a listener over TCP.
///
/// The ring provider is selected explicitly because ring and aws-lc-rs are both present in the
/// dependency tree.
pub fn build_rustls_config(cert_key: CertKey) -> (r: Result<rustls::ServerConfig, TlsError>)
    ensures
        match accepted(cert_key) {
            Ok(_) => r matches Ok(c) && alpn_of(c) == Seq::<Seq<u8>>::empty() && early_data_of(c) == 0
                && identity_of(c) == identity(cert_key),
            Err(m) => r matches Err(TlsError::InvalidData(text)) && text@ == m,
        },
{
    let tls: ServerTls = ServerTls::tcp(cert_key);
    assert(ders(tls.alpn_protocols@) =~= Seq::<Seq<u8>>::empty());
    tls.build()
}

/// Builds the configuration of a listener for HTTP/3 (QUIC).
pub fn build_quic_config(cert_key: CertKey) -> (r: Result<quinn::ServerConfig, TlsError>)
    ensures
        match accepted(cert_key) {
            Ok(_) => r matches Ok(c) && quic_alpn_of(c) == seq![seq!['h' as u8, '3' as u8]] && quic_early_data_of(c)
                == MAX_EARLY_DATA && quic_identity_of(c) == identity(cert_key),
            Err(m) => r matches Err(TlsError::InvalidData(text)) && text@ == m,
        },
        r matches Ok(c) ==> quic_early_data_of(c) == u32::MAX && quic_alpn_of(c).len() == 1,
{
    match ServerTls::quic(cert_key).build() {
        Ok(tls) => match make_quic_config(tls) {
            Ok(config) => Ok(config),
            Err(m) => Err(TlsError::InvalidData(m)),
        },
        Err(e) => Err(e),
    }
}

/// A listener never gets an empty chain of certificates.
pub proof fn lemma_chain_is_not_empty(r: Result<CertKey, TlsError>, cert: PemFile, key: PemFile)
    requires
        loaded(r, cert, key, certs_in(cert.data), key_in(key.data)),
        r is Ok,
    ensures
        r->Ok_0.cert_chain@.len() > 0,
{
    assert(ders(r->Ok_0.cert_chain@).len() == r->Ok_0.cert_chain@.len());
}

/// Loading succeeds if and only if both files can be opened and read, the one holds a certificate and the other a
/// key; what comes out are all the certificates and that key. A file that cannot be opened is reported with
/// its error number, the certificate's first.
pub proof fn lemma_when_loading_succeeds(
    r: Result<CertKey, TlsError>,
    cert: PemFile,
    key: PemFile,
    certs: Result<Seq<Seq<u8>>, Seq<char>>,
    found: Result<Option<(KeyKind, Seq<u8>)>, Seq<char>>,
)
    requires
        loaded(r, cert, key, certs, found),
    ensures
        r is Ok <==> {
            &&& !(cert.data is NotOpened)
            &&& !(key.data is NotOpened)
            &&& certs is Ok && certs->Ok_0.len() > 0
            &&& found is Ok && found->Ok_0 is Some
        },
        r matches Ok(c) ==> certs == Ok::<Seq<Seq<u8>>, Seq<char>>(ders(c.cert_chain@)) && found == Ok::<
            Option<(KeyKind, Seq<u8>)>,
            Seq<char>,
        >(Some((c.key.kind, c.key.der@))),
        cert.data matches PemData::NotOpened(e) ==> r == Err::<CertKey, TlsError>(TlsError::Io(e)),
        !(cert.data is NotOpened) ==> (key.data matches PemData::NotOpened(e) ==> r == Err::<CertKey, TlsError>(
            TlsError::Io(e),
        )),
        r matches Err(TlsError::Io(_)) ==> cert.data is NotOpened || key.data is NotOpened,
{
}

} // verus!
