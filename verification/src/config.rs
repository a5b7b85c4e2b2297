use vstd::prelude::*;

verus! {

/// Address and prefix length of the access point on its own network.
pub const STATIC_IP: &'static str = "192.168.4.1/24";

/// Gateway announced on the access point's network.
pub const GATEWAY_IP: &'static str = "192.168.4.1";

/// Number of simultaneous BLE connections the host keeps resources for.
pub const CONNECTIONS_MAX: usize = 1;

/// Number of L2CAP channels the BLE host keeps resources for.
pub const L2CAP_CHANNELS_MAX: usize = 1;

/// TCP port of the web server.
pub const WEB_SERVER_PORT: u16 = 80;

} // verus!
