//! Configuration of the backend.

use vstd::prelude::*;
use vstd::string::*;

verus! {

/// Settings of the HTTP listener.
#[derive(Debug, Clone)]
pub struct HttpConfig {
    pub port: u16,
}

impl Default for HttpConfig {
    fn default() -> (r: Self)
        ensures
            r.port == 80,
    {
        HttpConfig { port: default_http_port() }
    }
}

/// Settings of the HTTPS listener.
#[derive(Debug, Clone)]
pub struct HttpsConfig {
    /// Enabled by default. Disable with `enabled = false`.
    pub enabled: bool,
    pub port: u16,
    pub cert: Option<String>,
    pub key: Option<String>,
}

impl Default for HttpsConfig {
    fn default() -> (r: Self)
        ensures
            r.enabled,
            r.port == 443,
            r.cert is None,
            r.key is None,
    {
        HttpsConfig { enabled: true, port: default_https_port(), cert: None, key: None }
    }
}

/// Settings of the HTTP/3 listener.
#[derive(Debug, Clone)]
pub struct Http3Config {
    /// Enabled by default. Disable with `enabled = false`.
    pub enabled: bool,
    pub port: u16,
    pub cert: Option<String>,
    pub key: Option<String>,
}

impl Default for Http3Config {
    fn default() -> (r: Self)
        ensures
            r.enabled,
            r.port == 443,
            r.cert is None,
            r.key is None,
    {
        Http3Config { enabled: true, port: default_http3_port(), cert: None, key: None }
    }
}

/// Where the content comes from.
#[derive(Debug, Clone)]
pub struct ContentConfig {
    pub file: String,
    pub payload: String,
}

impl Default for ContentConfig {
    fn default() -> (r: Self)
        ensures
            r.file@ == "/etc/dwd-backend/content"@,
            r.payload@ == "default content"@,
    {
        ContentConfig { file: default_content_file(), payload: default_content_payload() }
    }
}

/// Settings of the backend.
#[derive(Debug, Clone)]
pub struct Config {
    /// Single listen address for all protocols ("::" or "0.0.0.0").
    pub address: String,
    pub http: HttpConfig,
    /// Enabled by default. The certificate/key are taken from cert/key or generated.
    pub https: HttpsConfig,
    /// Enabled by default. Does not require `https`: the certificate is taken from cert/key, reused
    /// from `https`, or generated.
    pub http3: Http3Config,
    pub content: ContentConfig,
}

impl Config {
    /// Whether every setting has its default value.
    pub open spec fn is_default(&self) -> bool {
        &&& self.address@ == "::"@
        &&& self.http.port == 80
        &&& self.https.enabled && self.https.port == 443 && self.https.cert is None && self.https.key is None
        &&& self.http3.enabled && self.http3.port == 443 && self.http3.cert is None && self.http3.key is None
        &&& self.content.file@ == "/etc/dwd-backend/content"@
        &&& self.content.payload@ == "default content"@
    }
}

impl Default for Config {
    fn default() -> (r: Self)
        ensures
            r.is_default(),
    {
        Config {
            address: default_address(),
            http: HttpConfig::default(),
            https: HttpsConfig::default(),
            http3: Http3Config::default(),
            content: ContentConfig::default(),
        }
    }
}

/// Returns the default listen address.
pub fn default_address() -> (r: String)
    ensures
        r@ == "::"@,
{
    "::".to_owned()
}

/// Returns the default port of the HTTP listener.
pub fn default_http_port() -> (r: u16)
    ensures
        r == 80,
{
    80
}

/// Returns the default port of the HTTPS listener.
pub fn default_https_port() -> (r: u16)
    ensures
        r == 443,
{
    443
}

/// Returns the default port of the HTTP/3 listener.
pub fn default_http3_port() -> (r: u16)
    ensures
        r == 443,
{
    443
}

/// Returns the default location of the content.
pub fn default_content_file() -> (r: String)
    ensures
        r@ == "/etc/dwd-backend/content"@,
{
    "/etc/dwd-backend/content".to_owned()
}

/// Returns the default content.
pub fn default_content_payload() -> (r: String)
    ensures
        r@ == "default content"@,
{
    "default content".to_owned()
}

/// What came of reading a text file; a failure carries the error of type `E`.
#[derive(Debug, Clone)]
pub enum FileText<E> {
    Text(String),
    NotFound,
    Failed(E),
}

/// What came of reading and parsing a config file.
#[derive(Debug, Clone)]
pub enum ConfigFile<E> {
    Parsed(Config),
    /// The text is no config, for the given reason.
    Invalid(String),
    NotFound,
    Failed(E),
}

/// Why a config cannot be loaded.
#[derive(Debug, Clone)]
pub enum LoadError<E> {
    Io(E),
    InvalidData(String),
}

impl Config {
    /// Loads the configuration from what came of reading its file.
    /// If the file is missing, returns a config with default values.
    pub fn load<E>(file: ConfigFile<E>) -> (r: Result<Config, LoadError<E>>)
        ensures
            match file {
                ConfigFile::Parsed(c) => r == Ok::<Config, LoadError<E>>(c),
                ConfigFile::Invalid(m) => r == Err::<Config, LoadError<E>>(LoadError::InvalidData(m)),
                ConfigFile::NotFound => r matches Ok(c) && c.is_default(),
                ConfigFile::Failed(e) => r == Err::<Config, LoadError<E>>(LoadError::Io(e)),
            },
            r is Ok <==> file is Parsed || file is NotFound,
    {
        match file {
            ConfigFile::Parsed(c) => Ok(c),
            ConfigFile::Invalid(m) => Err(LoadError::InvalidData(m)),
            ConfigFile::NotFound => Ok(Config::default()),
            ConfigFile::Failed(e) => Err(LoadError::Io(e)),
        }
    }

    /// Returns the effective content: the file contents if the file exists, otherwise the payload from
    /// the config.
    pub fn resolve_content<E>(&self, file: FileText<E>) -> (r: Result<String, E>)
        ensures
            match file {
                FileText::Text(t) => r == Ok::<String, E>(t),
                FileText::NotFound => r matches Ok(t) && t@ == self.content.payload@,
                FileText::Failed(e) => r == Err::<String, E>(e),
            },
            r is Ok <==> file is Text || file is NotFound,
    {
        match file {
            FileText::Text(t) => Ok(t),
            FileText::NotFound => Ok(self.content.payload.as_str().to_owned()),
            FileText::Failed(e) => Err(e),
        }
    }
}

/// By default the backend listens on all addresses with all three protocols, on port 80 without and on port 443 with
/// TLS, and has no certificate of its own.
pub proof fn lemma_defaults(c: Config)
    requires
        c.is_default(),
    ensures
        c.address@ == "::"@,
        c.http.port == 80,
        c.https.port == 443 && c.http3.port == 443,
        c.https.enabled && c.http3.enabled,
        c.https.cert is None && c.https.key is None && c.http3.cert is None && c.http3.key is None,
        c.content.file@ == "/etc/dwd-backend/content"@,
        c.content.payload@ == "default content"@,
{
}

} // verus!
