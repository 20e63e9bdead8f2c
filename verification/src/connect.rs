//! Decisions taken while connecting to the mouse and while fetching frames.
//!
//! Connecting: the mouse is first found under its normal product id; a mode
//! switch report on interface 1 makes it restart under its recovery product
//! id, where interface 0 is claimed. The transfer that carries the switch
//! report is expected to fail with a pipe or I/O error, since the device
//! goes away while answering. Whoever drives the connection performs each
//! action and hands back what came of it as the next event.
use vstd::prelude::*;

verus! {

/// USB vendor id of the mouse.
pub const VID: u16 = 0x258a;

/// Product id of the mouse in normal operation.
pub const NORM_PID: u16 = 0x0012;

/// Product id of the mouse after the mode switch.
pub const RECOV_PID: u16 = 0xff12;

/// Interface that takes the mode switch report.
pub const SWITCH_IFACE: u8 = 1;

/// Interface that is claimed in recovery mode and carries all reports.
pub const RECOVERY_IFACE: u8 = 0;

/// Seconds to wait for the device to come back after the mode switch.
pub const SWITCH_WAIT_SECS: u64 = 5;

/// Where the connection stands.
#[derive(Clone, Copy, Debug, PartialEq, Eq, Structural)]
pub enum ConnectPhase {
    /// Looking for the mouse under its normal product id.
    ScanNormal,
    /// The mode switch report has been sent; waiting for its outcome.
    AwaitSwitch,
    /// Looking for the mouse under its recovery product id.
    ScanRecovery,
    /// The recovery-mode device is open and claimed.
    Connected,
    /// The connection was given up.
    Stopped,
}

/// What the transfer carrying the mode switch report came back with.
#[derive(Clone, Copy, Debug, PartialEq, Eq, Structural)]
pub enum ReportOutcome {
    /// The report was accepted.
    Sent,
    /// The transfer failed with a pipe error.
    Pipe,
    /// The transfer failed with an I/O error.
    Io,
    /// The transfer failed in another way.
    OtherError,
}

/// What happened last.
#[derive(Clone, Copy, Debug, PartialEq, Eq, Structural)]
pub enum ConnectEvent {
    /// The next device of the current device list.
    Device { vendor_id: u16, product_id: u16 },
    /// The current device list holds no more devices.
    ScanEnd,
    /// The outcome of the mode switch report.
    SwitchReply(ReportOutcome),
}

/// What to do next.
#[derive(Clone, Copy, Debug, PartialEq, Eq, Structural)]
pub enum ConnectAction {
    /// Go on to the next device of the list.
    Skip,
    /// Open this device, detach the kernel driver from the switch interface,
    /// claim it, send the mode switch report and hand back its outcome.
    SwitchMode,
    /// Wait for the device to restart, then list the devices again.
    WaitThenRescan,
    /// List the devices again.
    Rescan,
    /// Open this device and claim the recovery interface.
    Claim,
    /// The switch report was accepted, which it never is: report and exit.
    Abort,
    /// Pass the error of the switch report's transfer on.
    Fail,
}

/// Whether the ids are those of the mouse in normal operation.
pub open spec fn is_normal_device(vendor_id: u16, product_id: u16) -> bool {
    vendor_id == VID && product_id == NORM_PID
}

/// Whether the ids are those of the mouse after the mode switch.
pub open spec fn is_recovery_device(vendor_id: u16, product_id: u16) -> bool {
    vendor_id == VID && product_id == RECOV_PID
}

/// How far along a phase is; phases never move backwards.
pub open spec fn phase_rank(p: ConnectPhase) -> int {
    match p {
        ConnectPhase::ScanNormal => 0,
        ConnectPhase::AwaitSwitch => 1,
        ConnectPhase::ScanRecovery => 2,
        ConnectPhase::Connected => 3,
        ConnectPhase::Stopped => 3,
    }
}

/// The next phase and action of the connection, given what happened last.
pub fn connect_step(phase: ConnectPhase, event: ConnectEvent) -> (r: (ConnectPhase, ConnectAction))
    ensures
        // The mode switch goes only to vendor 0x258a, product 0x0012, found
        // while scanning for the normal device; every other device is passed by.
        r.1 == ConnectAction::SwitchMode <==> (phase == ConnectPhase::ScanNormal
            && event == ConnectEvent::Device { vendor_id: 0x258a, product_id: 0x0012 }),
        phase == ConnectPhase::ScanNormal ==> (event matches ConnectEvent::Device {
            vendor_id,
            product_id,
        } && !(vendor_id == 0x258a && product_id == 0x0012) ==> r == (
            ConnectPhase::ScanNormal,
            ConnectAction::Skip,
        )),
        // Only vendor 0x258a, product 0xff12, found while scanning for the
        // recovery device, is claimed; every other device is passed by.
        r.1 == ConnectAction::Claim <==> (phase == ConnectPhase::ScanRecovery
            && event == ConnectEvent::Device { vendor_id: 0x258a, product_id: 0xff12 }),
        phase == ConnectPhase::ScanRecovery ==> (event matches ConnectEvent::Device {
            vendor_id,
            product_id,
        } && !(vendor_id == 0x258a && product_id == 0xff12) ==> r == (
            ConnectPhase::ScanRecovery,
            ConnectAction::Skip,
        )),
        r.0 == ConnectPhase::Connected <==> r.1 == ConnectAction::Claim || phase
            == ConnectPhase::Connected,
        phase_rank(r.0) >= phase_rank(phase),
        phase == ConnectPhase::ScanNormal ==> match event {
            ConnectEvent::Device { vendor_id, product_id } => if is_normal_device(
                vendor_id,
                product_id,
            ) {
                r == (ConnectPhase::AwaitSwitch, ConnectAction::SwitchMode)
            } else {
                r == (ConnectPhase::ScanNormal, ConnectAction::Skip)
            },
            ConnectEvent::ScanEnd => r == (ConnectPhase::ScanRecovery, ConnectAction::Rescan),
            ConnectEvent::SwitchReply(_) => r == (ConnectPhase::ScanNormal, ConnectAction::Skip),
        },
        phase == ConnectPhase::AwaitSwitch ==> match event {
            ConnectEvent::SwitchReply(o) => match o {
                ReportOutcome::Pipe | ReportOutcome::Io => r == (
                    ConnectPhase::ScanRecovery,
                    ConnectAction::WaitThenRescan,
                ),
                ReportOutcome::Sent => r == (ConnectPhase::Stopped, ConnectAction::Abort),
                ReportOutcome::OtherError => r == (ConnectPhase::Stopped, ConnectAction::Fail),
            },
            _ => r == (ConnectPhase::AwaitSwitch, ConnectAction::Skip),
        },
        phase == ConnectPhase::ScanRecovery ==> match event {
            ConnectEvent::Device { vendor_id, product_id } => if is_recovery_device(
                vendor_id,
                product_id,
            ) {
                r == (ConnectPhase::Connected, ConnectAction::Claim)
            } else {
                r == (ConnectPhase::ScanRecovery, ConnectAction::Skip)
            },
            ConnectEvent::ScanEnd => r == (ConnectPhase::ScanRecovery, ConnectAction::Rescan),
            ConnectEvent::SwitchReply(_) => r == (ConnectPhase::ScanRecovery, ConnectAction::Skip),
        },
        phase == ConnectPhase::Connected || phase == ConnectPhase::Stopped ==> r == (
            phase,
            ConnectAction::Skip,
        ),
{
    match phase {
        ConnectPhase::ScanNormal => match event {
            ConnectEvent::Device { vendor_id, product_id } => {
                if vendor_id == VID && product_id == NORM_PID {
                    (ConnectPhase::AwaitSwitch, ConnectAction::SwitchMode)
                } else {
                    (ConnectPhase::ScanNormal, ConnectAction::Skip)
                }
            },
            ConnectEvent::ScanEnd => (ConnectPhase::ScanRecovery, ConnectAction::Rescan),
            ConnectEvent::SwitchReply(_) => (ConnectPhase::ScanNormal, ConnectAction::Skip),
        },
        ConnectPhase::AwaitSwitch => match event {
            ConnectEvent::SwitchReply(o) => match o {
                ReportOutcome::Pipe | ReportOutcome::Io => (
                    ConnectPhase::ScanRecovery,
                    ConnectAction::WaitThenRescan,
                ),
                ReportOutcome::Sent => (ConnectPhase::Stopped, ConnectAction::Abort),
                ReportOutcome::OtherError => (ConnectPhase::Stopped, ConnectAction::Fail),
            },
            _ => (ConnectPhase::AwaitSwitch, ConnectAction::Skip),
        },
        ConnectPhase::ScanRecovery => match event {
            ConnectEvent::Device { vendor_id, product_id } => {
                if vendor_id == VID && product_id == RECOV_PID {
                    (ConnectPhase::Connected, ConnectAction::Claim)
                } else {
                    (ConnectPhase::ScanRecovery, ConnectAction::Skip)
                }
            },
            ConnectEvent::ScanEnd => (ConnectPhase::ScanRecovery, ConnectAction::Rescan),
            ConnectEvent::SwitchReply(_) => (ConnectPhase::ScanRecovery, ConnectAction::Skip),
        },
        ConnectPhase::Connected => (ConnectPhase::Connected, ConnectAction::Skip),
        ConnectPhase::Stopped => (ConnectPhase::Stopped, ConnectAction::Skip),
    }
}

/// Consecutive failed pixel bursts that a fetcher tolerates.
pub const MAX_BURST_FAILURES: u32 = 3;

/// What a frame fetcher does after a pixel burst.
#[derive(Clone, Copy, Debug, PartialEq, Eq, Structural)]
pub enum BurstAction {
    /// Hand the burst on to the decoder.
    Forward,
    /// Try another burst.
    Retry,
    /// Report the error and stop fetching.
    GiveUp,
}

/// The next count of consecutive failures and the action of a frame
/// fetcher, after a burst that succeeded (`ok`) or failed.
pub fn burst_step(failures: u32, ok: bool) -> (r: (u32, BurstAction))
    requires
        failures <= MAX_BURST_FAILURES,
    ensures
        ok ==> r == (0u32, BurstAction::Forward),
        !ok ==> r.0 == failures + 1,
        !ok ==> (r.1 == BurstAction::GiveUp <==> failures + 1 > MAX_BURST_FAILURES),
        // The fourth failure in a row gives up, and no earlier one does.
        !ok ==> (r.1 == BurstAction::GiveUp <==> failures == 3),
        !ok ==> r.1 != BurstAction::Forward,
{
    if ok {
        (0, BurstAction::Forward)
    } else {
        let failcount = failures + 1;
        if failcount > MAX_BURST_FAILURES {
            (failcount, BurstAction::GiveUp)
        } else {
            (failcount, BurstAction::Retry)
        }
    }
}

} // verus!
