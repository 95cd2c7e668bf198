//! The Linux input protocol, as far as a pen digitizer speaks it: request numbers, capability
//! bits, and event records.
use crate::alphabet::insert_in_order;
use crate::text::{chars_of, is_at, texts};
use vstd::prelude::*;

verus! {

pub const EV_SYN: u16 = 0x00;

pub const EV_KEY: u16 = 0x01;

pub const EV_ABS: u16 = 0x03;

/// One full sample is complete.
pub const SYN_REPORT: u16 = 0x00;

/// The pen is in detection range.
pub const BTN_TOOL_PEN: u16 = 0x140;

/// The eraser end of the pen is in detection range. While it is, touches and coordinates arrive
/// as they do for the tip.
pub const BTN_TOOL_RUBBER: u16 = 0x141;

/// The tip is pressed to the glass.
pub const BTN_TOUCH: u16 = 0x14a;

pub const ABS_X: u16 = 0x00;

pub const ABS_Y: u16 = 0x01;

pub const ABS_PRESSURE: u16 = 0x18;

pub const ABS_DISTANCE: u16 = 0x19;

pub const ABS_TILT_X: u16 = 0x1a;

pub const ABS_TILT_Y: u16 = 0x1b;

/// The largest key code.
pub const KEY_MAX: usize = 0x2ff;

/// The largest axis code.
pub const ABS_MAX: usize = 0x3f;

// ---------------------------------------------------------------------------------------------
// Request numbers
// ---------------------------------------------------------------------------------------------
/// The direction in which the device writes to the caller's buffer.
pub const IOC_READ: u32 = 2;

/// The type byte of evdev requests: `E`.
pub const EVDEV_TYPE: u32 = 0x45;

/// The size of an axis description.
pub const ABSINFO_SIZE: u32 = 24;

/// A request number: command number, type byte, argument size and direction, from the lowest bits
/// to the highest.
pub open spec fn request(dir: u32, nr: u32, size: u32) -> u32 {
    (dir << 30u32) | (EVDEV_TYPE << 8u32) | nr | (size << 16u32)
}

/// Build a request number.
pub fn ioc(dir: u32, nr: u32, size: u32) -> (r: u32)
    ensures
        r == request(dir, nr, size),
{
    (dir << 30u32) | (EVDEV_TYPE << 8u32) | nr | (size << 16u32)
}

/// The request for a device's name, into a buffer of `len` bytes.
pub fn eviocgname(len: u32) -> (r: u32)
    ensures
        r == request(IOC_READ, 0x06, len),
{
    ioc(IOC_READ, 0x06, len)
}

/// The request for the codes of event type `ev` that a device can emit, into a bit mask of `len`
/// bytes.
pub fn eviocgbit(ev: u32, len: u32) -> (r: u32)
    requires
        0x20 + ev <= u32::MAX,
    ensures
        r == request(IOC_READ, (0x20 + ev) as u32, len),
{
    ioc(IOC_READ, 0x20 + ev, len)
}

/// The request for the range of an axis.
pub fn eviocgabs(abs: u32) -> (r: u32)
    requires
        0x40 + abs <= u32::MAX,
    ensures
        r == request(IOC_READ, (0x40 + abs) as u32, ABSINFO_SIZE),
{
    ioc(IOC_READ, 0x40 + abs, ABSINFO_SIZE)
}

/// The request for the keys that are held down right now, into a bit mask of `len` bytes.
pub fn eviocgkey(len: u32) -> (r: u32)
    ensures
        r == request(IOC_READ, 0x18, len),
{
    ioc(IOC_READ, 0x18, len)
}

/// Where each part stays in its field, the parts of a request number do not mix.
pub proof fn law_request_fields_do_not_mix(dir: u32, nr: u32, size: u32)
    requires
        dir < 4,
        nr < 0x100,
        size < 0x4000,
    ensures
        request(dir, nr, size) == dir * 0x4000_0000 + size * 0x1_0000 + EVDEV_TYPE * 0x100 + nr,
{
    assert((dir << 30u32) | (0x45u32 << 8u32) | nr | (size << 16u32) == dir * 0x4000_0000 + size
        * 0x1_0000 + 0x4500 + nr) by (bit_vector)
        requires
            dir < 4,
            nr < 0x100,
            size < 0x4000,
    ;
}

// ---------------------------------------------------------------------------------------------
// Capability bits
// ---------------------------------------------------------------------------------------------
/// Is the bit set in a little-endian bit mask? Bits beyond its end are not.
pub open spec fn bit_set(bytes: Seq<u8>, bit: int) -> bool {
    bit / 8 < bytes.len() && (bytes[bit / 8] >> ((bit % 8) as u8)) % 2 == 1
}

pub fn test_bit(bytes: &[u8], bit: usize) -> (r: bool)
    ensures
        r == bit_set(bytes@, bit as int),
{
    if bit / 8 >= bytes.len() {
        return false;
    }
    let b = bytes[bit / 8];
    let k: u8 = (bit % 8) as u8;
    (b >> k) % 2 == 1
}

/// Is the key down, by a snapshot of the key state?
pub fn key_is_down(keys: &[u8], code: u16) -> (r: bool)
    ensures
        r == bit_set(keys@, code as int),
{
    test_bit(keys, code as usize)
}

/// Does a device with these event types have keys and axes?
pub fn has_keys_and_axes(types: &[u8]) -> (r: bool)
    ensures
        r == (bit_set(types@, EV_KEY as int) && bit_set(types@, EV_ABS as int)),
{
    test_bit(types, EV_KEY as usize) && test_bit(types, EV_ABS as usize)
}

/// Is a device with these keys and axes a pen digitizer?
pub fn is_pen(keys: &[u8], axes: &[u8]) -> (r: bool)
    ensures
        r == (bit_set(keys@, BTN_TOOL_PEN as int) && bit_set(axes@, ABS_PRESSURE as int)),
{
    test_bit(keys, BTN_TOOL_PEN as usize) && test_bit(axes, ABS_PRESSURE as usize)
}

/// Does a device with these keys have an eraser?
pub fn has_rubber(keys: &[u8]) -> (r: bool)
    ensures
        r == bit_set(keys@, BTN_TOOL_RUBBER as int),
{
    test_bit(keys, BTN_TOOL_RUBBER as usize)
}

/// Is the pen, either end of it, in range or touching, by a snapshot of the key state?
pub open spec fn pen_present(keys: Seq<u8>) -> bool {
    bit_set(keys, BTN_TOOL_PEN as int) || bit_set(keys, BTN_TOOL_RUBBER as int) || bit_set(
        keys,
        BTN_TOUCH as int,
    )
}

/// Is the pen in range or touching? Strokes must not be injected then.
pub fn pen_in_use(keys: &[u8]) -> (r: bool)
    ensures
        r == pen_present(keys@),
{
    key_is_down(keys, BTN_TOOL_PEN) || key_is_down(keys, BTN_TOOL_RUBBER) || key_is_down(
        keys,
        BTN_TOUCH,
    )
}

/// The length of a name in a buffer: up to the first zero byte, or the whole buffer.
pub fn name_len(buf: &[u8]) -> (r: usize)
    ensures
        r <= buf@.len(),
        r < buf@.len() ==> buf@[r as int] == 0,
        forall|i: int| 0 <= i < r ==> #[trigger] buf@[i] != 0,
{
    let mut i: usize = 0;
    while i < buf.len() && buf[i] != 0
        invariant
            i <= buf@.len(),
            forall|k: int| 0 <= k < i ==> #[trigger] buf@[k] != 0,
        decreases buf@.len() - i,
    {
        i = i + 1;
    }
    i
}

// ---------------------------------------------------------------------------------------------
// Records
// ---------------------------------------------------------------------------------------------
/// One event record.
#[derive(Debug, Clone, Copy, PartialEq, Eq, Structural)]
pub struct InputEvent {
    pub tv_sec: i64,
    pub tv_usec: i64,
    pub kind: u16,
    pub code: u16,
    pub value: i32,
}

impl InputEvent {
    /// An event of zeros.
    pub fn zeroed() -> (r: Self)
        ensures
            r == (InputEvent { tv_sec: 0, tv_usec: 0, kind: 0, code: 0, value: 0 }),
    {
        InputEvent { tv_sec: 0, tv_usec: 0, kind: 0, code: 0, value: 0 }
    }

    /// An event without a time, which the kernel stamps at delivery.
    pub fn untimed(kind: u16, code: u16, value: i32) -> (r: Self)
        ensures
            r == (InputEvent { tv_sec: 0, tv_usec: 0, kind, code, value }),
    {
        InputEvent { tv_sec: 0, tv_usec: 0, kind, code, value }
    }

    /// The timestamp in microseconds, modulo `2^64`. Only differences of timestamps are used.
    pub open spec fn micros(self) -> int {
        (self.tv_sec * 1_000_000 + self.tv_usec) % 0x1_0000_0000_0000_0000
    }

    /// The timestamp in microseconds, modulo `2^64`.
    pub fn t_us(&self) -> (r: u64)
        ensures
            r == self.micros(),
    {
        let whole: i128 = self.tv_sec as i128 * 1_000_000 + self.tv_usec as i128;
        let turn: i128 = 0x1_0000_0000_0000_0000;
        // at most this many turns below zero
        let lifted: i128 = whole + turn * 1_000_001;
        proof {
            vstd::arithmetic::div_mod::lemma_mod_multiples_vanish(
                1_000_001,
                whole as int,
                turn as int,
            );
        }
        (lifted % turn) as u64
    }
}

/// The range of one absolute axis.
#[derive(Debug, Clone, Copy, PartialEq, Eq, Structural)]
pub struct AbsInfo {
    pub value: i32,
    pub minimum: i32,
    pub maximum: i32,
    pub fuzz: i32,
    pub flat: i32,
    pub resolution: i32,
}

impl Default for AbsInfo {
    fn default() -> (r: Self)
        ensures
            r == (AbsInfo { value: 0, minimum: 0, maximum: 0, fuzz: 0, flat: 0, resolution: 0 }),
    {
        AbsInfo { value: 0, minimum: 0, maximum: 0, fuzz: 0, flat: 0, resolution: 0 }
    }
}

// ---------------------------------------------------------------------------------------------
// Device nodes
// ---------------------------------------------------------------------------------------------
/// Those of the first `n` names that event nodes have.
pub open spec fn event_names(names: Seq<Seq<char>>, n: nat) -> Seq<Seq<char>>
    decreases n,
{
    if n == 0 {
        Seq::empty()
    } else {
        let before = event_names(names, (n - 1) as nat);
        if crate::text::stands_at(names[n - 1], "event"@, 0) {
            before.push(names[n - 1])
        } else {
            before
        }
    }
}

/// The names of event nodes in a directory listing, in alphabetical order.
pub fn event_nodes(names: &Vec<String>) -> (r: Vec<String>)
    ensures
        crate::alphabet::in_order(crate::text::text_views(r@)),
        crate::text::text_views(r@).to_multiset() == event_names(
            crate::text::text_views(names@),
            names@.len(),
        ).to_multiset(),
{
    let prefix = chars_of("event");
    let ghost all = crate::text::text_views(names@);
    let mut sorted: Vec<Vec<char>> = Vec::new();
    let mut i: usize = 0;
    assert(crate::text::line_views(sorted@) =~= Seq::<Seq<char>>::empty());
    while i < names.len()
        invariant
            i <= names.len(),
            prefix@ == "event"@,
            all == crate::text::text_views(names@),
            crate::alphabet::in_order(crate::text::line_views(sorted@)),
            crate::text::line_views(sorted@).to_multiset() == event_names(
                all,
                i as nat,
            ).to_multiset(),
        decreases names.len() - i,
    {
        let name = chars_of(names[i].as_str());
        assert(all[i as int] == name@);
        if is_at(&name, &prefix, 0) {
            let ghost view = name@;
            insert_in_order(&mut sorted, name);
            proof {
                vstd::seq_lib::to_multiset_build(event_names(all, i as nat), view);
                assert(event_names(all, (i + 1) as nat) == event_names(all, i as nat).push(view));
            }
        }
        i = i + 1;
    }
    texts(&sorted)
}

} // verus!
