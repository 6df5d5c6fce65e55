//! The immutable runner configuration, and the device-description URL it
//! advertises. The URL is held as the text before and after its host, so
//! that the host can be replaced by the interface address a message goes
//! out on.

use vstd::prelude::*;

use crate::net::{append_host_text, host_text, IpAddress};
use crate::text::append_bytes;

verus! {

/// Ghost model of the configuration.
#[verifier::ext_equal]
pub struct ConfigModel {
    pub usn: Seq<u8>,
    pub server: Seq<u8>,
    pub location_prefix: Seq<u8>,
    pub location_suffix: Seq<u8>,
    pub notify_interval_ms: u64,
}

/// What the runner advertises: the unique service name, the free-form
/// server string, the device-description URL split around its placeholder
/// host (`location_prefix` ends where the host begins, `location_suffix`
/// starts where it ends), and the NOTIFY period.
pub struct RunnerConfig {
    pub usn: Vec<u8>,
    pub server_string: Vec<u8>,
    pub location_prefix: Vec<u8>,
    pub location_suffix: Vec<u8>,
    pub notify_interval_ms: u64,
}

impl View for RunnerConfig {
    type V = ConfigModel;

    open spec fn view(&self) -> ConfigModel {
        ConfigModel {
            usn: self.usn@,
            server: self.server_string@,
            location_prefix: self.location_prefix@,
            location_suffix: self.location_suffix@,
            notify_interval_ms: self.notify_interval_ms,
        }
    }
}

/// The description URL with its host set to `ip`.
pub open spec fn location_bytes(cfg: ConfigModel, ip: IpAddress) -> Seq<u8> {
    cfg.location_prefix + host_text(ip) + cfg.location_suffix
}

/// A configuration is well formed when the NOTIFY period is at least one
/// second.
pub open spec fn spec_config_wf(cfg: ConfigModel) -> bool {
    cfg.notify_interval_ms >= 1000
}

impl RunnerConfig {
    /// Renders the description URL for the given interface address.
    pub fn render_location(&self, ip: &IpAddress) -> (r: Vec<u8>)
        ensures
            r@ == location_bytes(self@, *ip),
    {
        let mut out: Vec<u8> = Vec::new();
        append_bytes(&mut out, self.location_prefix.as_slice());
        append_host_text(&mut out, ip);
        append_bytes(&mut out, self.location_suffix.as_slice());
        out
    }

    /// Whether the NOTIFY period is at least one second.
    pub fn wellformed(&self) -> (r: bool)
        ensures
            r == spec_config_wf(self@),
    {
        self.notify_interval_ms >= 1000
    }
}

} // verus!
