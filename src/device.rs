use vstd::prelude::*;

verus! {

/// The simulated device's connectivity, as callers see it.
#[derive(Clone, Copy, Debug, PartialEq, Eq, Structural)]
pub struct DeviceStatus {
    pub connected: bool,
    /// Clock reading at the end of the most recent completed pass, if any.
    pub last_sync_at: Option<u64>,
}

/// Holder of the device status: callers may only flip `connected`;
/// `last_sync_at` is set by the sync engine alone.
pub struct DeviceLink {
    status: DeviceStatus,
}

impl View for DeviceLink {
    type V = DeviceStatus;

    closed spec fn view(&self) -> DeviceStatus {
        self.status
    }
}

impl DeviceLink {
    /// A link to a disconnected device that was never synced.
    pub fn new() -> (r: DeviceLink)
        ensures
            r@ == (DeviceStatus { connected: false, last_sync_at: None }),
    {
        DeviceLink { status: DeviceStatus { connected: false, last_sync_at: None } }
    }

    /// A copy of the current status.
    pub fn get(&self) -> (r: DeviceStatus)
        ensures
            r == self@,
    {
        self.status
    }

    /// Flips `connected` and returns its new value.
    pub fn toggle_connection(&mut self) -> (r: bool)
        ensures
            r == !old(self)@.connected,
            final(self)@ == (DeviceStatus { connected: r, last_sync_at: old(self)@.last_sync_at }),
    {
        self.status.connected = !self.status.connected;
        self.status.connected
    }

    /// Records that a pass completed at clock reading `at`.
    pub(crate) fn record_sync_completion(&mut self, at: u64)
        ensures
            final(self)@ == (DeviceStatus { connected: old(self)@.connected, last_sync_at: Some(at) }),
    {
        self.status.last_sync_at = Some(at);
    }
}

} // verus!
