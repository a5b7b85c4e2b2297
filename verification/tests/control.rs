use dev_wallet::config::{GATEWAY_IP, STATIC_IP, WEB_SERVER_PORT};
use dev_wallet::network::{
    combine_seed, network_settings, network_settings_from, next_wait_step, Ipv4Octets,
    NetworkConfigError, NetworkSettings, WaitStep,
};
use dev_wallet::web::{
    server_timeouts, LinkMonitor, LinkNext, LinkNotice, LinkStart, LinkStep, ServerTimeouts,
};
use dev_wallet::wifi::{access_point_settings, monitor_action, ApObservation, AuthMethod, MonitorAction};

#[test]
fn configuration_constants() {
    assert_eq!(STATIC_IP, "192.168.4.1/24");
    assert_eq!(GATEWAY_IP, "192.168.4.1");
    assert_eq!(WEB_SERVER_PORT, 80);
}

#[test]
fn seed_halves() {
    assert_eq!(combine_seed(0, 0), 0);
    assert_eq!(combine_seed(1, 0), 1);
    assert_eq!(combine_seed(0, 1), 1u64 << 32);
    assert_eq!(combine_seed(0xdead_beef, 0x1234_5678), 0x1234_5678_dead_beef);
    assert_eq!(combine_seed(u32::MAX, u32::MAX), u64::MAX);
}

#[test]
fn configured_network_parses() {
    let s = network_settings(7, 9).expect("configuration parses");
    assert_eq!(
        s,
        NetworkSettings {
            address: Ipv4Octets(192, 168, 4, 1),
            prefix_len: 24,
            gateway: Ipv4Octets(192, 168, 4, 1),
            seed: (9u64 << 32) | 7,
        }
    );
}

#[test]
fn settings_errors_come_in_order() {
    assert_eq!(
        network_settings_from(0, 0, None, None),
        Err(NetworkConfigError::InvalidStaticIp)
    );
    assert_eq!(
        network_settings_from(0, 0, None, Some((10, 0, 0, 1))),
        Err(NetworkConfigError::InvalidStaticIp)
    );
    assert_eq!(
        network_settings_from(0, 0, Some((10, 0, 0, 2, 8)), None),
        Err(NetworkConfigError::InvalidGatewayIp)
    );
    assert_eq!(
        network_settings_from(3, 4, Some((10, 0, 0, 2, 8)), Some((10, 0, 0, 1))),
        Ok(NetworkSettings {
            address: Ipv4Octets(10, 0, 0, 2),
            prefix_len: 8,
            gateway: Ipv4Octets(10, 0, 0, 1),
            seed: (4u64 << 32) | 3,
        })
    );
}

#[test]
fn waits_poll_every_half_second() {
    assert_eq!(next_wait_step(true), WaitStep::Proceed);
    assert_eq!(next_wait_step(false), WaitStep::RetryAfterMillis(500));
}

#[test]
fn server_configuration() {
    assert_eq!(
        server_timeouts(),
        ServerTimeouts {
            start_read_request_secs: 5,
            read_request_secs: 1,
            write_secs: 1,
            persistent_start_read_request_secs: 1,
            keep_connection_alive: true,
        }
    );
}

#[test]
fn link_already_up_starts_server_quietly() {
    let (mut m, start) = LinkMonitor::start(true);
    assert_eq!(start, LinkStart::AlreadyConnected);
    assert_eq!(
        m.observe(true),
        LinkStep { notice: LinkNotice::Quiet, next: LinkNext::StartServer }
    );
}

#[test]
fn link_comes_up_later() {
    let (mut m, start) = LinkMonitor::start(false);
    assert_eq!(start, LinkStart::WaitingForDevice);
    assert_eq!(
        m.observe(false),
        LinkStep { notice: LinkNotice::Quiet, next: LinkNext::PollAfterMillis(500) }
    );
    assert_eq!(
        m.observe(true),
        LinkStep { notice: LinkNotice::Connected, next: LinkNext::StartServer }
    );
}

#[test]
fn link_drops_and_returns() {
    let (mut m, _) = LinkMonitor::start(true);
    assert_eq!(
        m.observe(false),
        LinkStep { notice: LinkNotice::Disconnected, next: LinkNext::PollAfterMillis(500) }
    );
    assert_eq!(
        m.observe(false),
        LinkStep { notice: LinkNotice::Quiet, next: LinkNext::PollAfterMillis(500) }
    );
    assert_eq!(
        m.observe(true),
        LinkStep { notice: LinkNotice::Connected, next: LinkNext::StartServer }
    );
}

#[test]
fn access_point_configuration() {
    let s = access_point_settings("wallet", "secret123");
    assert_eq!(s.ssid, "wallet");
    assert_eq!(s.password, "secret123");
    assert_eq!(s.auth_method, AuthMethod::Wpa2Personal);
    assert!(!s.ssid_hidden);
}

#[test]
fn monitor_decisions() {
    assert_eq!(
        monitor_action(ApObservation::Started),
        MonitorAction::RestartAfterStop { pause_millis: 5000 }
    );
    assert_eq!(
        monitor_action(ApObservation::NotStarted { controller_started: Some(true) }),
        MonitorAction::Pause { pause_millis: 5000 }
    );
    assert_eq!(
        monitor_action(ApObservation::NotStarted { controller_started: Some(false) }),
        MonitorAction::StartThenPause { pause_millis: 5000 }
    );
    assert_eq!(
        monitor_action(ApObservation::NotStarted { controller_started: None }),
        MonitorAction::StartThenPause { pause_millis: 5000 }
    );
}

#[test]
fn link_watch_over_a_run_of_looks() {
    // First look down, then down, down, up: pauses twice, then a connection
    // is reported and the server starts.
    let (mut m, start) = LinkMonitor::start(false);
    assert_eq!(start, LinkStart::WaitingForDevice);
    let outcomes: Vec<LinkStep> = [false, false, true].iter().map(|&up| m.observe(up)).collect();
    assert_eq!(
        outcomes,
        vec![
            LinkStep { notice: LinkNotice::Quiet, next: LinkNext::PollAfterMillis(500) },
            LinkStep { notice: LinkNotice::Quiet, next: LinkNext::PollAfterMillis(500) },
            LinkStep { notice: LinkNotice::Connected, next: LinkNext::StartServer },
        ]
    );
}
