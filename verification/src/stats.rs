//! Frame and byte counters plus the active-consumer gauge.
//!
//! The counters only ever grow (wrapping at the machine width, as a hardware
//! counter would); the gauge moves up on consumer connect and down on
//! disconnect. Wall-clock rates are derived by the caller, which owns the
//! clock.

use vstd::prelude::*;

verus! {

pub struct Stats {
    pub total_frames: u64,
    pub total_bytes: u64,
    pub active_clients: u64,
}

impl Stats {
    pub fn new() -> (s: Stats)
        ensures
            s.total_frames == 0,
            s.total_bytes == 0,
            s.active_clients == 0,
    {
        Stats { total_frames: 0, total_bytes: 0, active_clients: 0 }
    }

    /// Record one completed frame of `bytes` bytes.
    pub fn add_frame(&mut self, bytes: u64)
        ensures
            final(self).total_frames == old(self).total_frames.wrapping_add(1),
            final(self).total_bytes == old(self).total_bytes.wrapping_add(bytes),
            final(self).active_clients == old(self).active_clients,
    {
        self.total_frames = self.total_frames.wrapping_add(1);
        self.total_bytes = self.total_bytes.wrapping_add(bytes);
    }

    /// Move the gauge up when a consumer session starts.
    pub fn client_connected(&mut self)
        ensures
            final(self).active_clients == old(self).active_clients.wrapping_add(1),
            final(self).total_frames == old(self).total_frames,
            final(self).total_bytes == old(self).total_bytes,
    {
        self.active_clients = self.active_clients.wrapping_add(1);
    }

    /// Move the gauge down when a consumer session ends.
    pub fn client_disconnected(&mut self)
        ensures
            final(self).active_clients == old(self).active_clients.wrapping_sub(1),
            final(self).total_frames == old(self).total_frames,
            final(self).total_bytes == old(self).total_bytes,
    {
        self.active_clients = self.active_clients.wrapping_sub(1);
    }
}

} // verus!
