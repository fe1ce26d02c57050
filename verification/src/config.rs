//! Build-time configuration of the network link.

use vstd::prelude::*;

verus! {

/// Credentials of the wireless network that the controller joins.
pub struct Config {
    /// Name of the network.
    pub wifi_ssid: &'static str,
    /// Pre-shared key of the network; empty for an open one.
    pub wifi_psk: &'static str,
}

impl Default for Config {
    /// A configuration in which nothing has been filled in.
    fn default() -> (config: Config)
        ensures
            config.wifi_ssid@.len() == 0,
            config.wifi_psk@.len() == 0,
    {
        proof {
            reveal_strlit("");
        }
        Config { wifi_ssid: "", wifi_psk: "" }
    }
}

} // verus!
