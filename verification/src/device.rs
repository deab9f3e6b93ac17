//! The device synchronization controller: tracks per-capability actuator
//! slots and a scanning flag from discovery events, and turns the latest
//! shared control value into per-capability device commands.
//!
//! This is the decision core of the controller. The surrounding runtime —
//! the hardware transport, the timers of the periodic loops, and the
//! ingress that supplies control values — performs the actions this module
//! decides on and feeds the outcomes back in.
//!
//! Control values are fixed-point milli-units: `1.0` on the hardware's
//! `0.0 ..= 1.0` command scale is stored as `1000`.

use vstd::prelude::*;

verus! {

/// Full scale of a hardware command value: `1.0` in milli-units.
pub const CONTROL_MAX: u64 = 1000;

/// Dead zone of the vibrate mapping: `0.03` in milli-units. Below this the
/// vibrate command is forced to zero.
pub const VIBRATE_DEAD_ZONE: u64 = 30;

/// A kind of physical actuation a device supports.
#[derive(Clone, Copy, PartialEq, Eq, Structural, Debug)]
pub enum CapabilityType {
    Oscillate,
    Vibrate,
    /// Any actuator kind the controller does not drive.
    Other,
}

/// A connected actuator: its display name and the capabilities it exposes.
#[derive(Clone, Debug)]
pub struct DeviceHandle {
    pub name: String,
    pub capabilities: Vec<CapabilityType>,
}

/// A discovery event from the hardware transport.
#[derive(Debug)]
pub enum DeviceEvent {
    /// A device connected, with its capabilities.
    DeviceAdded(DeviceHandle),
    /// The device with this display name disconnected.
    DeviceRemoved(String),
    /// Informational scan-finished notification; alters no slot state.
    ScanningFinished,
}

/// The handle exposes the given capability.
pub open spec fn has_capability(h: DeviceHandle, cap: CapabilityType) -> bool {
    h.capabilities@.contains(cap)
}

/// The two handles describe the same actuator: same name and capabilities.
pub open spec fn handle_matches(d: DeviceHandle, h: DeviceHandle) -> bool {
    d.name@ == h.name@ && d.capabilities@ == h.capabilities@
}

/// Manages the connection state and the latest command value of the
/// tracked actuators.
#[derive(Debug)]
pub struct DeviceManager {
    /// Currently connected oscillate-capable device.
    pub oscillate_device: Option<DeviceHandle>,
    /// Currently connected vibrate-capable device.
    pub vibrate_device: Option<DeviceHandle>,
    /// Whether hardware discovery is currently active.
    pub scanning: bool,
    /// Latest control value in milli-units; written unconditionally and
    /// clamped only when commands are computed.
    pub latest_value: i64,
}

/// Both tracked capability slots are occupied.
pub open spec fn all_slots_filled(m: DeviceManager) -> bool {
    m.oscillate_device is Some && m.vibrate_device is Some
}

/// The manager after the outcome of a stop-discovery request: a
/// successful stop leaves the controller idle, a failed one leaves the
/// scanning state unchanged.
pub open spec fn scan_stopped(m: DeviceManager, success: bool) -> DeviceManager {
    DeviceManager { scanning: m.scanning && !success, ..m }
}

/// The manager after the outcome of a start-discovery request.
pub open spec fn scan_started(m: DeviceManager, success: bool) -> DeviceManager {
    DeviceManager { scanning: m.scanning || success, ..m }
}

/// A control value clamped to the hardware command scale `0 ..= 1000`.
pub open spec fn clamp_control(v: int) -> u64 {
    if v < 0 {
        0
    } else if v > CONTROL_MAX {
        CONTROL_MAX
    } else {
        v as u64
    }
}

/// The vibrate-slot mapping of a clamped control value: zero below the
/// dead zone, otherwise `(v - 0.03) * 1.5` clamped to full scale. This
/// compensates for a perceptual difference between motion types.
pub open spec fn vibrate_adjust_spec(v: u64) -> u64
    recommends
        v <= CONTROL_MAX,
{
    if v < VIBRATE_DEAD_ZONE {
        0
    } else if (v - VIBRATE_DEAD_ZONE) * 3 / 2 > CONTROL_MAX {
        CONTROL_MAX
    } else {
        ((v - VIBRATE_DEAD_ZONE) * 3 / 2) as u64
    }
}

/// The per-capability command values of one broadcast tick.
#[derive(Clone, Copy, PartialEq, Eq, Structural, Debug)]
pub struct SlotCommands {
    /// Command for the oscillate slot, when it is occupied.
    pub oscillate: Option<u64>,
    /// Command for the vibrate slot, when it is occupied.
    pub vibrate: Option<u64>,
}

fn clone_handle(h: &DeviceHandle) -> (r: DeviceHandle)
    ensures
        handle_matches(r, *h),
{
    let mut caps: Vec<CapabilityType> = Vec::new();
    let mut i: usize = 0;
    while i < h.capabilities.len()
        invariant
            i <= h.capabilities@.len(),
            caps@ == h.capabilities@.take(i as int),
        decreases h.capabilities@.len() - i,
    {
        caps.push(h.capabilities[i]);
        proof {
            assert(caps@ =~= h.capabilities@.take(i as int + 1));
        }
        i += 1;
    }
    proof {
        assert(h.capabilities@.take(h.capabilities@.len() as int) =~= h.capabilities@);
    }
    DeviceHandle { name: h.name.clone(), capabilities: caps }
}

/// The handle exposes the given capability.
pub fn handle_has_capability(h: &DeviceHandle, cap: CapabilityType) -> (r: bool)
    ensures
        r == has_capability(*h, cap),
{
    let mut i: usize = 0;
    while i < h.capabilities.len()
        invariant
            i <= h.capabilities@.len(),
            forall|j: int| 0 <= j < i ==> #[trigger] h.capabilities@[j] != cap,
        decreases h.capabilities@.len() - i,
    {
        if h.capabilities[i] == cap {
            return true;
        }
        i += 1;
    }
    proof {
        assert(!h.capabilities@.contains(cap));
    }
    false
}

impl DeviceManager {
    /// Creates a controller with empty slots, discovery idle, and a zero
    /// control value.
    pub fn new() -> (m: DeviceManager)
        ensures
            m.oscillate_device is None,
            m.vibrate_device is None,
            !m.scanning,
            m.latest_value == 0,
    {
        DeviceManager {
            oscillate_device: None,
            vibrate_device: None,
            scanning: false,
            latest_value: 0,
        }
    }

    /// Unconditionally overwrites the latest control value. No validation
    /// and no clamping happen here; clamping happens when commands are
    /// computed. Rapid successive calls only affect what the next
    /// broadcast tick observes.
    pub fn set_value(&mut self, value: i64)
        ensures
            final(self).latest_value == value,
            final(self).oscillate_device == old(self).oscillate_device,
            final(self).vibrate_device == old(self).vibrate_device,
            final(self).scanning == old(self).scanning,
    {
        self.latest_value = value;
    }

    /// Applies one discovery event to the slots. Returns whether a
    /// stop-discovery request should be issued: exactly when the event
    /// filled the last empty slot while discovery was active. The scanning
    /// state itself changes only through `on_stop_scanning_result`, once
    /// the outcome of the request is known.
    pub fn handle_event(&mut self, event: &DeviceEvent) -> (stop_scan: bool)
        ensures
            final(self).scanning == old(self).scanning,
            final(self).latest_value == old(self).latest_value,
            match *event {
                DeviceEvent::DeviceAdded(ref h) => {
                    &&& (has_capability(*h, CapabilityType::Oscillate)
                        ==> final(self).oscillate_device is Some && handle_matches(
                        final(self).oscillate_device.unwrap(),
                        *h,
                    ))
                    &&& (!has_capability(*h, CapabilityType::Oscillate)
                        ==> final(self).oscillate_device == old(self).oscillate_device)
                    &&& (has_capability(*h, CapabilityType::Vibrate)
                        ==> final(self).vibrate_device is Some && handle_matches(
                        final(self).vibrate_device.unwrap(),
                        *h,
                    ))
                    &&& (!has_capability(*h, CapabilityType::Vibrate)
                        ==> final(self).vibrate_device == old(self).vibrate_device)
                    &&& stop_scan == (all_slots_filled(*final(self)) && old(self).scanning)
                },
                DeviceEvent::DeviceRemoved(ref name) => {
                    &&& final(self).oscillate_device == (match old(self).oscillate_device {
                        Some(ref d) => if d.name@ == name@ {
                            None
                        } else {
                            old(self).oscillate_device
                        },
                        None => None,
                    })
                    &&& final(self).vibrate_device == (match old(self).vibrate_device {
                        Some(ref d) => if d.name@ == name@ {
                            None
                        } else {
                            old(self).vibrate_device
                        },
                        None => None,
                    })
                    &&& !stop_scan
                },
                DeviceEvent::ScanningFinished => {
                    &&& *final(self) == *old(self)
                    &&& !stop_scan
                },
            },
    {
        match event {
            DeviceEvent::DeviceAdded(h) => {
                if handle_has_capability(h, CapabilityType::Oscillate) {
                    self.oscillate_device = Some(clone_handle(h));
                }
                if handle_has_capability(h, CapabilityType::Vibrate) {
                    self.vibrate_device = Some(clone_handle(h));
                }
                let has_both = self.oscillate_device.is_some() && self.vibrate_device.is_some();
                has_both && self.scanning
            },
            DeviceEvent::DeviceRemoved(name) => {
                let clear_osc = match &self.oscillate_device {
                    Some(d) => d.name == *name,
                    None => false,
                };
                if clear_osc {
                    self.oscillate_device = None;
                }
                let clear_vib = match &self.vibrate_device {
                    Some(d) => d.name == *name,
                    None => false,
                };
                if clear_vib {
                    self.vibrate_device = None;
                }
                false
            },
            DeviceEvent::ScanningFinished => false,
        }
    }

    /// Records the outcome of a stop-discovery request: on success the
    /// controller is idle; on failure the state is left unchanged, to be
    /// retried by the scan scheduler's next tick.
    pub fn on_stop_scanning_result(&mut self, success: bool)
        ensures
            *final(self) == scan_stopped(*old(self), success),
    {
        if success {
            self.scanning = false;
        }
    }

    /// Whether this scheduler tick should request hardware discovery:
    /// exactly when some tracked slot is empty and discovery is idle.
    pub fn scan_tick(&self) -> (start_scan: bool)
        ensures
            start_scan == (!all_slots_filled(*self) && !self.scanning),
    {
        let has_both = self.oscillate_device.is_some() && self.vibrate_device.is_some();
        !has_both && !self.scanning
    }

    /// Records the outcome of a start-discovery request: on success the
    /// controller is scanning; on failure the state is left idle so the
    /// next tick retries.
    pub fn on_start_scanning_result(&mut self, success: bool)
        ensures
            *final(self) == scan_started(*old(self), success),
    {
        if success {
            self.scanning = true;
        }
    }

    /// Computes the per-capability command values of one broadcast tick:
    /// the latest control value clamped to the command scale, sent
    /// unchanged to an occupied oscillate slot and through the dead-zone
    /// mapping to an occupied vibrate slot.
    pub fn broadcast_commands(&self) -> (r: SlotCommands)
        ensures
            r.oscillate is Some <==> self.oscillate_device is Some,
            r.oscillate is Some ==> r.oscillate.unwrap() == clamp_control(
                self.latest_value as int,
            ),
            r.vibrate is Some <==> self.vibrate_device is Some,
            r.vibrate is Some ==> r.vibrate.unwrap() == vibrate_adjust_spec(
                clamp_control(self.latest_value as int),
            ),
    {
        let clamped = clamp_control_value(self.latest_value);
        let oscillate = if self.oscillate_device.is_some() {
            Some(clamped)
        } else {
            None
        };
        let vibrate = if self.vibrate_device.is_some() {
            Some(vibrate_adjust(clamped))
        } else {
            None
        };
        SlotCommands { oscillate, vibrate }
    }
}

/// Clamps a raw control value to the hardware command scale.
pub fn clamp_control_value(v: i64) -> (r: u64)
    ensures
        r == clamp_control(v as int),
        r <= CONTROL_MAX,
{
    if v < 0 {
        0
    } else if v > 1000 {
        1000
    } else {
        v as u64
    }
}

/// Applies the vibrate dead-zone mapping to a clamped control value.
pub fn vibrate_adjust(v: u64) -> (r: u64)
    requires
        v <= CONTROL_MAX,
    ensures
        r == vibrate_adjust_spec(v),
        r <= CONTROL_MAX,
{
    if v < VIBRATE_DEAD_ZONE {
        0
    } else {
        let adj = (v - VIBRATE_DEAD_ZONE) * 3 / 2;
        if adj > CONTROL_MAX {
            CONTROL_MAX
        } else {
            adj
        }
    }
}

/// Repeated stop-discovery outcomes while the controller is already idle
/// never alter its state, whatever each request reported.
pub proof fn lemma_stop_discovery_idempotent(m: DeviceManager, s1: bool, s2: bool)
    requires
        !m.scanning,
    ensures
        scan_stopped(m, s1) == m,
        scan_stopped(scan_stopped(m, s1), s2) == m,
{
}


/// Decides the value updates of one ingress control message: each field
/// that the message carried is clamped to the command scale; absent
/// fields change nothing.
pub fn control_updates(oscillate: Option<i64>, vibrate: Option<i64>) -> (r: (
    Option<u64>,
    Option<u64>,
))
    ensures
        match oscillate {
            Some(v) => r.0 == Some(clamp_control(v as int)),
            None => r.0 is None,
        },
        match vibrate {
            Some(v) => r.1 == Some(clamp_control(v as int)),
            None => r.1 is None,
        },
{
    let o = match oscillate {
        Some(v) => Some(clamp_control_value(v)),
        None => None,
    };
    let v = match vibrate {
        Some(v) => Some(clamp_control_value(v)),
        None => None,
    };
    (o, v)
}

} // verus!
