//! Settings: where Tor listens, which port the onion service offers, how
//! large a message may be.
use vstd::prelude::*;

verus! {

/// The whole configuration.
#[derive(Debug, Clone)]
pub struct AppConfig {
    pub tor: TorConfig,
    pub app: RuntimeConfig,
}

/// Where the Tor control port and SOCKS proxy listen.
#[derive(Debug, Clone)]
pub struct TorConfig {
    pub control_host: String,
    pub control_port: u16,
    pub socks_host: String,
    pub socks_port: u16,
}

/// How the application runs.
#[derive(Debug, Clone)]
pub struct RuntimeConfig {
    pub onion_virtual_port: u16,
    pub log_level: String,
    pub max_message_bytes: usize,
}

/// The default settings for Tor.
pub open spec fn is_default_tor(c: TorConfig) -> bool {
    &&& c.control_host@ == "127.0.0.1"@
    &&& c.control_port == 9051
    &&& c.socks_host@ == "127.0.0.1"@
    &&& c.socks_port == 9050
}

/// The default settings of the application.
pub open spec fn is_default_runtime(c: RuntimeConfig) -> bool {
    &&& c.onion_virtual_port == 17654
    &&& c.log_level@ == "info"@
    &&& c.max_message_bytes == 4096
}

impl Default for AppConfig {
    fn default() -> (r: Self)
        ensures
            is_default_tor(r.tor),
            is_default_runtime(r.app),
    {
        AppConfig { tor: TorConfig::default(), app: RuntimeConfig::default() }
    }
}

impl Default for TorConfig {
    fn default() -> (r: Self)
        ensures
            is_default_tor(r),
    {
        TorConfig {
            control_host: default_control_host(),
            control_port: default_control_port(),
            socks_host: default_socks_host(),
            socks_port: default_socks_port(),
        }
    }
}

impl Default for RuntimeConfig {
    fn default() -> (r: Self)
        ensures
            is_default_runtime(r),
    {
        RuntimeConfig {
            onion_virtual_port: default_onion_virtual_port(),
            log_level: default_log_level(),
            max_message_bytes: default_max_message_bytes(),
        }
    }
}

/// The control port's host: the local machine.
pub fn default_control_host() -> (r: String)
    ensures
        r@ == "127.0.0.1"@,
{
    "127.0.0.1".to_owned()
}

/// Tor's usual control port.
pub fn default_control_port() -> (r: u16)
    ensures
        r == 9051,
{
    9051
}

/// The SOCKS proxy's host: the local machine.
pub fn default_socks_host() -> (r: String)
    ensures
        r@ == "127.0.0.1"@,
{
    "127.0.0.1".to_owned()
}

/// Tor's usual SOCKS port.
pub fn default_socks_port() -> (r: u16)
    ensures
        r == 9050,
{
    9050
}

/// The port that the onion service offers.
pub fn default_onion_virtual_port() -> (r: u16)
    ensures
        r == 17654,
{
    17654
}

/// The default log level.
pub fn default_log_level() -> (r: String)
    ensures
        r@ == "info"@,
{
    "info".to_owned()
}

/// The largest message frame payload, in bytes.
pub fn default_max_message_bytes() -> (r: usize)
    ensures
        r == 4096,
{
    4096
}

} // verus!
