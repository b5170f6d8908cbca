//! Command-line interface of the backend.

use vstd::prelude::*;
use vstd::string::*;

verus! {

/// Returns the name of the program.
pub fn command_name() -> (r: &'static str)
    ensures
        r@ == "dwd-backend"@,
{
    "dwd-backend"
}

/// Returns the default location of the config.
pub fn default_config_path() -> (r: &'static str)
    ensures
        r@ == "/etc/dwd-backend/config.toml"@,
{
    "/etc/dwd-backend/config.toml"
}

/// Returns the environment variable that names the config.
pub fn config_env() -> (r: &'static str)
    ensures
        r@ == "DWD_BACKEND_CONFIG"@,
{
    "DWD_BACKEND_CONFIG"
}

/// Protocol selected by `--mode`.
#[derive(Debug, Clone, Copy, PartialEq, Eq, Structural)]
pub enum Mode {
    Http,
    Https,
    Http3,
}

impl Mode {
    /// The default listen port.
    pub open spec fn port(self) -> u16 {
        match self {
            Mode::Http => 80,
            _ => 443,
        }
    }

    /// Default listen port when `--port` is not given.
    pub fn default_port(self) -> (r: u16)
        ensures
            r == self.port(),
    {
        match self {
            Mode::Http => 80,
            Mode::Https => 443,
            Mode::Http3 => 443,
        }
    }
}

/// Command-line interface.
///
/// Two mutually exclusive ways to run:
///   * `--config <path>` — full config-driven mode (HTTP/HTTPS/HTTP3 per the TOML file);
///   * `--mode <proto>` — standalone single-protocol mode configured entirely from CLI flags
///     (`--port`, `--cert`, `--key`), ignoring the config file.
///
/// With neither flag, the config path falls back to an environment variable or the default location.
/// Paths have the type `P`.
#[derive(Debug, Clone)]
pub struct Cli<P> {
    /// Path to the TOML config (config-driven mode).
    pub config: Option<P>,
    /// Run a single protocol standalone, configured from CLI flags.
    pub mode: Option<Mode>,
    /// Listen port (standalone mode).
    pub port: Option<u16>,
    /// Certificate path (standalone https/http3; generated if omitted).
    pub cert: Option<P>,
    /// Private key path (standalone https/http3; generated if omitted).
    pub key: Option<P>,
}

/// Why a combination of flags is refused.
#[derive(Debug, Clone, Copy, PartialEq, Eq, Structural)]
pub enum CliError {
    /// Flags that exclude each other are given together.
    ArgumentConflict,
    /// A flag is given without another one that it needs.
    MissingRequiredArgument,
}

/// How to run.
#[derive(Debug, Clone)]
pub enum RunPlan<P> {
    /// One protocol on one port.
    Single { mode: Mode, port: u16 },
    /// As the config at a path says.
    FromConfig { path: P },
    /// As the config at the default location says.
    FromDefaultConfig,
}

impl<P> Cli<P> {
    /// The standalone flags need `--mode`, and `--cert` and `--key` need each other.
    ///
    /// Beside `--config`, which excludes `--mode`, the standalone flags do not need it; they have no effect
    /// then.
    pub open spec fn flags_complete(&self) -> bool {
        &&& (self.port is Some || self.cert is Some || self.key is Some) ==> self.mode is Some || self.config is Some
        &&& self.cert is Some <==> self.key is Some
    }

    /// Checks which flags go together.
    pub fn check(&self) -> (r: Result<(), CliError>)
        ensures
            r == (if self.config is Some && self.mode is Some {
                Err(CliError::ArgumentConflict)
            } else if !self.flags_complete() {
                Err(CliError::MissingRequiredArgument)
            } else {
                Ok(())
            }),
            self.refusal() == (match r {
                Err(e) => Some(e),
                Ok(_) => None,
            }),
            r == Err::<(), CliError>(CliError::ArgumentConflict) <==> self.config is Some && self.mode is Some,
            r is Ok ==> {
                &&& self.config is None || self.mode is None
                &&& self.cert is Some <==> self.key is Some
                &&& self.port is Some || self.cert is Some ==> self.mode is Some || self.config is Some
            },
            self.port is None && self.cert is None && self.key is None && (self.config is None || self.mode is None)
                ==> r is Ok,
            self.mode is Some && self.config is None && (self.cert is Some <==> self.key is Some) ==> r is Ok,
    {
        let standalone: bool = self.mode.is_some();
        if self.config.is_some() && standalone {
            return Err(CliError::ArgumentConflict);
        }
        if !standalone && self.config.is_none() && (self.port.is_some() || self.cert.is_some() || self.key.is_some()) {
            return Err(CliError::MissingRequiredArgument);
        }
        if self.cert.is_some() != self.key.is_some() {
            return Err(CliError::MissingRequiredArgument);
        }
        Ok(())
    }

    /// Decides how to run, given the value of the environment variable that names the config.
    pub fn plan(self, env: Option<P>) -> (r: RunPlan<P>)
        ensures
            match self.mode {
                Some(m) => r == (RunPlan::Single::<P> {
                    mode: m,
                    port: match self.port {
                        Some(p) => p,
                        None => m.port(),
                    },
                }),
                None => match (self.config, env) {
                    (Some(path), _) => r == (RunPlan::FromConfig { path }),
                    (None, Some(path)) => r == (RunPlan::FromConfig { path }),
                    (None, None) => r == RunPlan::FromDefaultConfig::<P>,
                },
            },
            r == self.planned(env),
            r matches RunPlan::Single { mode, port } ==> {
                &&& self.mode == Some(mode)
                &&& self.port matches Some(p) ==> port == p
                &&& self.port is None ==> port == (if mode == Mode::Http {
                    80int
                } else {
                    443
                })
            },
            r matches RunPlan::FromConfig { path } ==> self.mode is None && (self.config == Some(path) || self.config is None
                && env == Some(path)),
            r is FromDefaultConfig <==> self.mode is None && self.config is None && env is None,
    {
        match self.mode {
            Some(mode) => {
                let port: u16 = match self.port {
                    Some(p) => p,
                    None => mode.default_port(),
                };
                RunPlan::Single { mode, port }
            },
            None => match self.config {
                Some(path) => RunPlan::FromConfig { path },
                None => match env {
                    Some(path) => RunPlan::FromConfig { path },
                    None => RunPlan::FromDefaultConfig,
                },
            },
        }
    }
}

/// Plain HTTP listens on port 80 by default, the two protocols over TLS on port 443.
pub proof fn lemma_default_ports(mode: Mode)
    ensures
        mode.port() == 80 <==> mode == Mode::Http,
        mode.port() == 443 <==> mode == Mode::Https || mode == Mode::Http3,
{
}

impl<P> Cli<P> {
    /// Why the flags are refused, if they are.
    pub open spec fn refusal(&self) -> Option<CliError> {
        if self.config is Some && self.mode is Some {
            Some(CliError::ArgumentConflict)
        } else if !self.flags_complete() {
            Some(CliError::MissingRequiredArgument)
        } else {
            None
        }
    }

    /// How to run, given the value of the environment variable that names the config.
    pub open spec fn planned(&self, env: Option<P>) -> RunPlan<P> {
        match self.mode {
            Some(mode) => RunPlan::Single {
                mode,
                port: if self.port is Some {
                    self.port->0
                } else {
                    mode.port()
                },
            },
            None => if self.config is Some {
                RunPlan::FromConfig { path: self.config->0 }
            } else if env is Some {
                RunPlan::FromConfig { path: env->0 }
            } else {
                RunPlan::FromDefaultConfig
            },
        }
    }
}

/// Flags are refused for a conflict where both ways to run are asked for, and for a lack where a standalone flag
/// stands without any of them or a certificate without its key; nothing else is refused.
pub proof fn lemma_refused_flags<P>(c: Cli<P>)
    ensures
        c.refusal() == Some(CliError::ArgumentConflict) <==> c.config is Some && c.mode is Some,
        c.refusal() == Some(CliError::MissingRequiredArgument) <==> {
            &&& c.config is None || c.mode is None
            &&& c.cert is Some != c.key is Some || c.config is None && c.mode is None && (c.port is Some || c.cert is Some)
        },
{
}

/// A mode runs by itself, on its port or its default one, whatever the environment says. Without a mode a config is
/// used: the one of the flag before the one of the environment, and the default one without both.
pub proof fn lemma_how_to_run<P>(c: Cli<P>, env: Option<P>)
    ensures
        c.mode matches Some(m) ==> (c.planned(env) matches RunPlan::Single { mode, port } && mode == m && (if c.port is Some {
            c.port == Some(port)
        } else {
            port == (if m == Mode::Http {
                80int
            } else {
                443
            })
        })),
        c.mode is None ==> {
            &&& c.config matches Some(p) ==> c.planned(env) == (RunPlan::FromConfig { path: p })
            &&& c.config is None ==> (env matches Some(p) ==> c.planned(env) == (RunPlan::FromConfig { path: p }))
            &&& c.config is None && env is None ==> c.planned(env) == RunPlan::<P>::FromDefaultConfig
        },
{
}

} // verus!
