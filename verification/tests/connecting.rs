use mousecam::connect::{
    burst_step, connect_step, BurstAction, ConnectAction, ConnectEvent, ConnectPhase,
    ReportOutcome, NORM_PID, RECOV_PID, VID,
};
use mousecam::display::{gray_to_rgb, window_buffer};

fn dev(vendor_id: u16, product_id: u16) -> ConnectEvent {
    ConnectEvent::Device { vendor_id, product_id }
}

#[test]
fn normal_device_gets_switched() {
    assert_eq!(
        connect_step(ConnectPhase::ScanNormal, dev(VID, NORM_PID)),
        (ConnectPhase::AwaitSwitch, ConnectAction::SwitchMode)
    );
}

#[test]
fn other_devices_are_skipped() {
    assert_eq!(
        connect_step(ConnectPhase::ScanNormal, dev(0x1234, NORM_PID)),
        (ConnectPhase::ScanNormal, ConnectAction::Skip)
    );
    assert_eq!(
        connect_step(ConnectPhase::ScanNormal, dev(VID, RECOV_PID)),
        (ConnectPhase::ScanNormal, ConnectAction::Skip)
    );
    assert_eq!(
        connect_step(ConnectPhase::ScanRecovery, dev(VID, NORM_PID)),
        (ConnectPhase::ScanRecovery, ConnectAction::Skip)
    );
}

#[test]
fn no_normal_device_goes_to_recovery_scan() {
    assert_eq!(
        connect_step(ConnectPhase::ScanNormal, ConnectEvent::ScanEnd),
        (ConnectPhase::ScanRecovery, ConnectAction::Rescan)
    );
}

#[test]
fn expected_switch_errors_wait_for_recovery() {
    for o in [ReportOutcome::Pipe, ReportOutcome::Io] {
        assert_eq!(
            connect_step(ConnectPhase::AwaitSwitch, ConnectEvent::SwitchReply(o)),
            (ConnectPhase::ScanRecovery, ConnectAction::WaitThenRescan)
        );
    }
}

#[test]
fn accepted_switch_aborts() {
    assert_eq!(
        connect_step(ConnectPhase::AwaitSwitch, ConnectEvent::SwitchReply(ReportOutcome::Sent)),
        (ConnectPhase::Stopped, ConnectAction::Abort)
    );
}

#[test]
fn other_switch_error_fails() {
    assert_eq!(
        connect_step(
            ConnectPhase::AwaitSwitch,
            ConnectEvent::SwitchReply(ReportOutcome::OtherError)
        ),
        (ConnectPhase::Stopped, ConnectAction::Fail)
    );
}

#[test]
fn recovery_device_is_claimed() {
    assert_eq!(
        connect_step(ConnectPhase::ScanRecovery, dev(VID, RECOV_PID)),
        (ConnectPhase::Connected, ConnectAction::Claim)
    );
    assert_eq!(
        connect_step(ConnectPhase::ScanRecovery, ConnectEvent::ScanEnd),
        (ConnectPhase::ScanRecovery, ConnectAction::Rescan)
    );
}

#[test]
fn whole_connection_walk() {
    let events = [
        dev(1, 2),
        dev(VID, NORM_PID),
        ConnectEvent::SwitchReply(ReportOutcome::Pipe),
        dev(VID, NORM_PID),
        ConnectEvent::ScanEnd,
        dev(VID, RECOV_PID),
    ];
    let mut phase = ConnectPhase::ScanNormal;
    let mut actions = Vec::new();
    for e in events {
        let (p, a) = connect_step(phase, e);
        phase = p;
        actions.push(a);
    }
    assert_eq!(phase, ConnectPhase::Connected);
    assert_eq!(
        actions,
        vec![
            ConnectAction::Skip,
            ConnectAction::SwitchMode,
            ConnectAction::WaitThenRescan,
            ConnectAction::Skip,
            ConnectAction::Rescan,
            ConnectAction::Claim
        ]
    );
}

#[test]
fn burst_failures_give_up_after_the_fourth() {
    assert_eq!(burst_step(2, true), (0, BurstAction::Forward));
    assert_eq!(burst_step(0, false), (1, BurstAction::Retry));
    assert_eq!(burst_step(2, false), (3, BurstAction::Retry));
    assert_eq!(burst_step(3, false), (4, BurstAction::GiveUp));
}

#[test]
fn grey_fills_all_three_channels() {
    assert_eq!(gray_to_rgb(0), 0);
    assert_eq!(gray_to_rgb(0x12), 0x121212);
    assert_eq!(gray_to_rgb(255), 0xffffff);
}

#[test]
fn window_buffer_keeps_an_image_of_window_size() {
    let gray = vec![1u8, 2, 3, 4, 5, 6];
    let out = window_buffer(&gray, 3, 2, 3, 2);
    assert_eq!(out, gray.iter().map(|v| *v as u32 * 0x10101).collect::<Vec<u32>>());
}

#[test]
fn window_buffer_stretches_each_pixel() {
    let gray = vec![10u8, 20, 30, 40];
    let out = window_buffer(&gray, 2, 2, 4, 4);
    let g = |v: u32| v * 0x10101;
    assert_eq!(
        out,
        vec![
            g(10), g(10), g(20), g(20),
            g(10), g(10), g(20), g(20),
            g(30), g(30), g(40), g(40),
            g(30), g(30), g(40), g(40),
        ]
    );
}

#[test]
fn window_buffer_of_one_pixel_fills_the_window() {
    let out = window_buffer(&vec![7u8], 1, 1, 3, 2);
    assert_eq!(out, vec![0x070707u32; 6]);
}
