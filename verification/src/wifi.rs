//! The Wi-Fi access point: its settings, and the monitor that keeps it running.
use vstd::prelude::*;

verus! {

/// How clients authenticate to the access point.
#[derive(PartialEq, Eq, Structural, Clone, Copy, Debug)]
pub enum AuthMethod {
    /// WPA2 with a pre-shared password.
    Wpa2Personal,
}

/// The access point's configuration.
pub struct AccessPointSettings {
    /// Network name, broadcast to clients.
    pub ssid: String,
    /// Pre-shared password.
    pub password: String,
    /// How clients authenticate.
    pub auth_method: AuthMethod,
    /// Whether the network name is kept out of the beacons.
    pub ssid_hidden: bool,
}

/// The configuration that the access point is started, and restarted, with:
/// the given name and password, WPA2-Personal, and the name broadcast.
pub fn access_point_settings(ssid: &str, password: &str) -> (s: AccessPointSettings)
    ensures
        s.ssid@ == ssid@,
        s.password@ == password@,
        s.auth_method == AuthMethod::Wpa2Personal,
        !s.ssid_hidden,
{
    AccessPointSettings {
        ssid: ssid.to_owned(),
        password: password.to_owned(),
        auth_method: AuthMethod::Wpa2Personal,
        ssid_hidden: false,
    }
}

/// Pause of the monitor between its looks at the access point, and before
/// it restarts a stopped one.
pub const MONITOR_PAUSE_MILLIS: u64 = 5000;

/// What the monitor sees of the access point.
#[derive(PartialEq, Eq, Structural, Clone, Copy, Debug)]
pub enum ApObservation {
    /// The radio reports the access point as started.
    Started,
    /// The radio reports it otherwise; the controller then says whether it is
    /// started (`None` where it could not tell).
    NotStarted { controller_started: Option<bool> },
}

/// What the monitor does next.
#[derive(PartialEq, Eq, Structural, Clone, Copy, Debug)]
pub enum MonitorAction {
    /// Wait until the access point stops, pause, then configure and start it again.
    RestartAfterStop { pause_millis: u64 },
    /// Configure and start the access point, then pause.
    StartThenPause { pause_millis: u64 },
    /// Leave it be and pause.
    Pause { pause_millis: u64 },
}

/// The monitor's decision: a started access point is watched until it stops
/// and then restarted; otherwise it is started unless the controller says
/// for certain that it already is.
pub fn monitor_action(observed: ApObservation) -> (action: MonitorAction)
    ensures
        action == (match observed {
            ApObservation::Started => MonitorAction::RestartAfterStop {
                pause_millis: MONITOR_PAUSE_MILLIS,
            },
            ApObservation::NotStarted { controller_started: Some(true) } => MonitorAction::Pause {
                pause_millis: MONITOR_PAUSE_MILLIS,
            },
            ApObservation::NotStarted { .. } => MonitorAction::StartThenPause {
                pause_millis: MONITOR_PAUSE_MILLIS,
            },
        }),
{
    match observed {
        ApObservation::Started => MonitorAction::RestartAfterStop { pause_millis: MONITOR_PAUSE_MILLIS },
        ApObservation::NotStarted { controller_started } => {
            let running = match controller_started {
                Some(b) => b,
                None => false,
            };
            if running {
                MonitorAction::Pause { pause_millis: MONITOR_PAUSE_MILLIS }
            } else {
                MonitorAction::StartThenPause { pause_millis: MONITOR_PAUSE_MILLIS }
            }
        },
    }
}

} // verus!
