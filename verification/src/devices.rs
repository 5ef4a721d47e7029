//! The programmable interval timer's ports, modelled as write logs.
//!
//! Writing an I/O port is an outside effect; here each port records the
//! bytes written to it, in order, so the protocol a driver speaks — which
//! port, which bytes, in which order — is what the contracts pin down,
//! and the embedder replays the log onto the hardware ports.

use vstd::prelude::*;

verus! {

/// Selects which countdown channel an operation applies to: channel 0
/// feeds the timer interrupt, channel 2 the speaker one-shot.
#[derive(Debug, Clone, Copy, PartialEq, Eq, Structural)]
pub enum ChannelSelector {
    Channel0,
    Channel2,
}

/// The timer's ports under a single lock: one data port per usable
/// channel, the command port, and the status/control port.
#[derive(Debug)]
pub struct PITPorts {
    /// Channel 0's data port.
    pub port_chan_0: Vec<u8>,
    /// Channel 2's data port.
    pub port_chan_2: Vec<u8>,
    /// The mode/command register.
    pub port_cmd: Vec<u8>,
    /// The timer-enable and speaker control flags.
    pub port_61: Vec<u8>,
}

impl PITPorts {
    /// Writes a reload value in lobyte/hibyte access mode: the low byte
    /// first, then the high byte, both to the selected channel's port.
    pub fn write_reload_value(&mut self, channel_selector: ChannelSelector, value: u16)
        ensures
            ({
                let lo = (value & 0xFF) as u8;
                let hi = (value >> 8) as u8;
                match channel_selector {
                    ChannelSelector::Channel0 => final(self).port_chan_0@ == old(
                        self,
                    ).port_chan_0@.push(lo).push(hi) && final(self).port_chan_2@ == old(
                        self,
                    ).port_chan_2@,
                    ChannelSelector::Channel2 => final(self).port_chan_2@ == old(
                        self,
                    ).port_chan_2@.push(lo).push(hi) && final(self).port_chan_0@ == old(
                        self,
                    ).port_chan_0@,
                }
            }),
            final(self).port_cmd@ == old(self).port_cmd@,
            final(self).port_61@ == old(self).port_61@,
    {
        let lo: u8 = (value & 0xFF) as u8;
        let hi: u8 = (value >> 8) as u8;
        match channel_selector {
            ChannelSelector::Channel0 => {
                self.port_chan_0.push(lo);
                self.port_chan_0.push(hi);
            },
            ChannelSelector::Channel2 => {
                self.port_chan_2.push(lo);
                self.port_chan_2.push(hi);
            },
        }
    }
}

} // verus!
