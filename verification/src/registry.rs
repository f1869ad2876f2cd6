//! SDR device registry with strict USB serial locking.
//!
//! Three receiver channels are bound to fixed hardware serial numbers so
//! that channel assignment never drifts across reboots or USB port changes.
//! Enumeration sits behind [`UsbProbe`]: the sysfs backend works from a
//! snapshot of the USB device tree, the simulated backend from a fixed
//! bench inventory.

use vstd::prelude::*;
use crate::text::{chars_of, decimal, push_decimal, push_str, trim_ws, trimmed_string};

verus! {

// ---------------------------------------------------------------------------
// Roles
// ---------------------------------------------------------------------------

/// Logical receiver roles of the ingestion topology.
#[derive(Debug, Clone, Copy, PartialEq, Eq, Structural)]
pub enum SdrRole {
    /// 1090 MHz Mode S / ADS-B ES.
    AdsB,
    /// 131.550 MHz VHF ACARS.
    Acars,
    /// VHF guard / tactical scan channel.
    TacScan,
}

pub open spec fn channel_label(role: SdrRole) -> Seq<char> {
    match role {
        SdrRole::AdsB => "SDR-1"@,
        SdrRole::Acars => "SDR-2"@,
        SdrRole::TacScan => "SDR-3"@,
    }
}

pub open spec fn role_frequency_hz(role: SdrRole) -> u32 {
    match role {
        SdrRole::AdsB => 1_090_000_000,
        SdrRole::Acars => 131_550_000,
        SdrRole::TacScan => 121_500_000,
    }
}

pub open spec fn role_label(role: SdrRole) -> Seq<char> {
    match role {
        SdrRole::AdsB => "1090MHz ADS-B"@,
        SdrRole::Acars => "ACARS"@,
        SdrRole::TacScan => "VHF GUARD"@,
    }
}

impl SdrRole {
    pub fn channel_id(self) -> (s: &'static str)
        ensures
            s@ == channel_label(self),
    {
        match self {
            SdrRole::AdsB => "SDR-1",
            SdrRole::Acars => "SDR-2",
            SdrRole::TacScan => "SDR-3",
        }
    }

    pub fn default_frequency_hz(self) -> (f: u32)
        ensures
            f == role_frequency_hz(self),
    {
        match self {
            SdrRole::AdsB => 1_090_000_000,
            SdrRole::Acars => 131_550_000,
            SdrRole::TacScan => 121_500_000,
        }
    }

    pub fn role_name(self) -> (s: &'static str)
        ensures
            s@ == role_label(self),
    {
        match self {
            SdrRole::AdsB => "1090MHz ADS-B",
            SdrRole::Acars => "ACARS",
            SdrRole::TacScan => "VHF GUARD",
        }
    }
}

// ---------------------------------------------------------------------------
// Devices and probes
// ---------------------------------------------------------------------------

/// A physical RTL-SDR dongle discovered on the bus.
#[derive(Debug, Clone, PartialEq)]
pub struct UsbDevice {
    pub vendor_id: u16,
    pub product_id: u16,
    /// Factory-burned serial string used for deterministic binding.
    pub serial: String,
    pub bus: u8,
    pub port: u8,
}

pub struct UsbDeviceModel {
    pub vendor_id: u16,
    pub product_id: u16,
    pub serial: Seq<char>,
    pub bus: u8,
    pub port: u8,
}

impl View for UsbDevice {
    type V = UsbDeviceModel;

    open spec fn view(&self) -> UsbDeviceModel {
        UsbDeviceModel {
            vendor_id: self.vendor_id,
            product_id: self.product_id,
            serial: self.serial@,
            bus: self.bus,
            port: self.port,
        }
    }
}

pub open spec fn device_views(ds: Seq<UsbDevice>) -> Seq<UsbDeviceModel> {
    ds.map_values(|d: UsbDevice| d@)
}

/// Hardware enumeration backend.
pub trait UsbProbe {
    fn scan(&self) -> Vec<UsbDevice>;
}

/// Bench fallback producing a stable pseudo-inventory.
#[derive(Debug, Clone, Copy, Default)]
pub struct SimulatedProbe;

pub open spec fn bench_dongle(serial: Seq<char>, port: u8) -> UsbDeviceModel {
    UsbDeviceModel { vendor_id: 0x0bda, product_id: 0x8832, serial, bus: 1, port }
}

/// The bench inventory: three RTL2832U dongles on bus 1.
pub open spec fn bench_inventory() -> Seq<UsbDeviceModel> {
    seq![
        bench_dongle("00000001"@, 1),
        bench_dongle("00000002"@, 3),
        bench_dongle("00000003"@, 5),
    ]
}

fn bench_device(serial: &str, port: u8) -> (d: UsbDevice)
    ensures
        d@ == bench_dongle(serial@, port),
{
    UsbDevice { vendor_id: 0x0bda, product_id: 0x8832, serial: serial.to_owned(), bus: 1, port }
}

impl UsbProbe for SimulatedProbe {
    fn scan(&self) -> (ds: Vec<UsbDevice>)
        ensures
            device_views(ds@) == bench_inventory(),
    {
        let mut ds = Vec::new();
        ds.push(bench_device("00000001", 1));
        ds.push(bench_device("00000002", 3));
        ds.push(bench_device("00000003", 5));
        assert(device_views(ds@) =~= bench_inventory());
        ds
    }
}

// ---------------------------------------------------------------------------
// The sysfs backend
// ---------------------------------------------------------------------------

/// One entry of the USB device tree (`/sys/bus/usb/devices/<name>`), as read:
/// the `idVendor` and `idProduct` files (empty when unreadable) and the
/// `serial` file when it could be read.
#[derive(Debug, Clone)]
pub struct SysfsEntry {
    pub name: String,
    pub id_vendor: String,
    pub id_product: String,
    pub serial: Option<String>,
}

pub struct SysfsModel {
    pub name: Seq<char>,
    pub id_vendor: Seq<char>,
    pub id_product: Seq<char>,
    pub serial: Option<Seq<char>>,
}

impl View for SysfsEntry {
    type V = SysfsModel;

    open spec fn view(&self) -> SysfsModel {
        SysfsModel {
            name: self.name@,
            id_vendor: self.id_vendor@,
            id_product: self.id_product@,
            serial: match self.serial {
                Some(s) => Some(s@),
                None => None,
            },
        }
    }
}

pub open spec fn entry_views(es: Seq<SysfsEntry>) -> Seq<SysfsModel> {
    es.map_values(|e: SysfsEntry| e@)
}

/// Production probe: RTL2832U dongles (RTL-SDR Blog v4 / FlightAware Pro
/// Stick) found in a snapshot of the sysfs USB device tree.
pub struct LibUsbProbe {
    pub entries: Vec<SysfsEntry>,
}

/// Realtek vendor id with one of the RTL2832U product ids.
pub open spec fn is_rtl_dongle(e: SysfsModel) -> bool {
    let p = trim_ws(e.id_product);
    &&& trim_ws(e.id_vendor) == "0bda"@
    &&& (p == "0x8832"@ || p == "0x2838"@ || p == "0x2832"@)
}

/// Hex value of an accepted product id.
pub open spec fn product_id_of(p: Seq<char>) -> u16 {
    if p == "0x8832"@ {
        0x8832
    } else if p == "0x2838"@ {
        0x2838
    } else {
        0x2832
    }
}

/// The port is the last digit of the device's sysfs name (0 if none).
pub open spec fn port_of(name: Seq<char>) -> u8 {
    if name.len() > 0 && '0' <= name.last() && name.last() <= '9' {
        (name.last() as u32 - 48) as u8
    } else {
        0
    }
}

/// The serial, or `unbound-<name>` when it could not be read, trimmed.
pub open spec fn serial_of(e: SysfsModel) -> Seq<char> {
    trim_ws(
        match e.serial {
            Some(s) => s,
            None => "unbound-"@ + e.name,
        },
    )
}

pub open spec fn device_of(e: SysfsModel) -> UsbDeviceModel {
    UsbDeviceModel {
        vendor_id: 0x0bda,
        product_id: product_id_of(trim_ws(e.id_product)),
        serial: serial_of(e),
        bus: 1,
        port: port_of(e.name),
    }
}

/// The dongles among the entries, in entry order.
pub open spec fn rtl_devices(es: Seq<SysfsModel>) -> Seq<UsbDeviceModel>
    decreases es.len(),
{
    if es.len() == 0 {
        Seq::empty()
    } else {
        let r = rtl_devices(es.drop_last());
        if is_rtl_dongle(es.last()) {
            r.push(device_of(es.last()))
        } else {
            r
        }
    }
}

/// Lexicographic order by code point, which is also the byte order of the
/// UTF-8 encodings.
pub open spec fn serial_lt(a: Seq<char>, b: Seq<char>) -> bool
    decreases a.len(),
{
    if a.len() == 0 {
        b.len() > 0
    } else if b.len() == 0 {
        false
    } else if a[0] != b[0] {
        a[0] < b[0]
    } else {
        serial_lt(a.drop_first(), b.drop_first())
    }
}

pub open spec fn sorted_by_serial(ds: Seq<UsbDeviceModel>) -> bool {
    forall|i: int, j: int|
        0 <= i < j < ds.len() ==> !serial_lt(#[trigger] ds[j].serial, #[trigger] ds[i].serial)
}

/// The devices carrying `key`, in order.
pub open spec fn with_serial(ds: Seq<UsbDeviceModel>, key: Seq<char>) -> Seq<UsbDeviceModel> {
    ds.filter(|d: UsbDeviceModel| d.serial == key)
}

/// `out` is `input` sorted by serial, stably: ordered, and for every serial
/// the devices carrying it come in their input order.
pub open spec fn stable_sorted_by_serial(out: Seq<UsbDeviceModel>, input: Seq<UsbDeviceModel>) -> bool {
    &&& sorted_by_serial(out)
    &&& forall|key: Seq<char>| #[trigger] with_serial(out, key) == with_serial(input, key)
}

proof fn lemma_serial_lt_irreflexive(a: Seq<char>)
    ensures
        !serial_lt(a, a),
    decreases a.len(),
{
    if a.len() > 0 {
        lemma_serial_lt_irreflexive(a.drop_first());
    }
}

proof fn lemma_serial_lt_transitive(a: Seq<char>, b: Seq<char>, c: Seq<char>)
    requires
        serial_lt(a, b),
        serial_lt(b, c),
    ensures
        serial_lt(a, c),
    decreases a.len(),
{
    if a.len() > 0 && b.len() > 0 && c.len() > 0 && a[0] == b[0] && b[0] == c[0] {
        lemma_serial_lt_transitive(a.drop_first(), b.drop_first(), c.drop_first());
    }
}

proof fn lemma_serial_lt_total(a: Seq<char>, b: Seq<char>)
    requires
        !serial_lt(a, b),
        !serial_lt(b, a),
    ensures
        a == b,
    decreases a.len(),
{
    if a.len() > 0 && b.len() > 0 && a[0] == b[0] {
        lemma_serial_lt_total(a.drop_first(), b.drop_first());
        assert(a =~= seq![a[0]] + a.drop_first());
        assert(b =~= seq![b[0]] + b.drop_first());
    } else if a.len() == 0 && b.len() == 0 {
        assert(a =~= b);
    }
}

/// Inserting `x` at the first position whose serial exceeds its own keeps
/// the sequence sorted and appends `x` behind the devices sharing its
/// serial.
proof fn lemma_insert_by_serial(l: Seq<UsbDeviceModel>, x: UsbDeviceModel, p: int)
    requires
        sorted_by_serial(l),
        0 <= p <= l.len(),
        forall|i: int| 0 <= i < p ==> !serial_lt(x.serial, #[trigger] l[i].serial),
        p < l.len() ==> serial_lt(x.serial, l[p].serial),
    ensures
        sorted_by_serial(l.insert(p, x)),
        forall|key: Seq<char>|
            #[trigger] with_serial(l.insert(p, x), key) == with_serial(l.push(x), key),
{
    let r = l.insert(p, x);
    assert forall|i: int, j: int| 0 <= i < j < r.len() implies !serial_lt(
        #[trigger] r[j].serial,
        #[trigger] r[i].serial,
    ) by {
        if i < p && j == p {
        } else if i == p && j > p {
            let a = l[j - 1].serial;
            if serial_lt(a, x.serial) {
                if p < j - 1 {
                    assert(!serial_lt(l[j - 1].serial, l[p].serial));
                    lemma_serial_lt_transitive(a, x.serial, l[p].serial);
                } else {
                    lemma_serial_lt_transitive(a, x.serial, a);
                    lemma_serial_lt_irreflexive(a);
                }
            }
        } else if i < p && j > p {
            assert(!serial_lt(l[j - 1].serial, l[i].serial));
        } else if j < p {
            assert(!serial_lt(l[j].serial, l[i].serial));
        } else {
            assert(!serial_lt(l[j - 1].serial, l[i - 1].serial));
        }
    }
    let front = l.subrange(0, p);
    let back = l.subrange(p, l.len() as int);
    assert(r =~= front + seq![x] + back);
    assert(l =~= front + back);
    assert forall|key: Seq<char>| #[trigger] with_serial(r, key) == with_serial(l.push(x), key) by {
        let f = |d: UsbDeviceModel| d.serial == key;
        Seq::filter_distributes_over_add(front + seq![x], back, f);
        Seq::filter_distributes_over_add(front, seq![x], f);
        Seq::filter_distributes_over_add(front, back, f);
        l.lemma_filter_push(x, f);
        assert(seq![x] =~= Seq::<UsbDeviceModel>::empty().push(x));
        Seq::<UsbDeviceModel>::empty().lemma_filter_push(x, f);
        reveal(Seq::filter);
        assert(Seq::<UsbDeviceModel>::empty().filter(f) =~= Seq::<UsbDeviceModel>::empty());
        if x.serial == key {
            assert forall|k: int| 0 <= k < back.len() implies !f(back[k]) by {
                let s = back[k].serial;
                assert(back[k] == l[p + k]);
                if k > 0 {
                    assert(!serial_lt(l[p + k].serial, l[p].serial));
                    if !serial_lt(x.serial, s) {
                        if serial_lt(s, x.serial) {
                            lemma_serial_lt_transitive(s, x.serial, l[p].serial);
                        } else {
                            lemma_serial_lt_total(x.serial, s);
                        }
                    }
                }
                assert(serial_lt(x.serial, s));
                lemma_serial_lt_irreflexive(x.serial);
            }
            back.lemma_all_neg_filter_empty(f);
            assert(with_serial(r, key) =~= with_serial(front, key).push(x));
            assert(with_serial(l, key) =~= with_serial(front, key));
        } else {
            assert(with_serial(r, key) =~= with_serial(front, key) + with_serial(back, key));
        }
    }
}

/// Whether serial `a` sorts strictly before serial `b`.
fn serial_less(a: &String, b: &String) -> (r: bool)
    ensures
        r == serial_lt(a@, b@),
{
    let x = chars_of(a.as_str());
    let y = chars_of(b.as_str());
    let mut i: usize = 0;
    assert(a@.subrange(0, a@.len() as int) =~= a@);
    assert(b@.subrange(0, b@.len() as int) =~= b@);
    while i < x.len() && i < y.len()
        invariant
            x@ == a@,
            y@ == b@,
            i <= x@.len(),
            i <= y@.len(),
            serial_lt(a@, b@) == serial_lt(
                a@.subrange(i as int, a@.len() as int),
                b@.subrange(i as int, b@.len() as int),
            ),
        decreases x.len() - i,
    {
        let ghost sa = a@.subrange(i as int, a@.len() as int);
        let ghost sb = b@.subrange(i as int, b@.len() as int);
        assert(sa[0] == x@[i as int]);
        assert(sb[0] == y@[i as int]);
        if x[i] != y[i] {
            return x[i] < y[i];
        }
        assert(sa.drop_first() =~= a@.subrange(i + 1, a@.len() as int));
        assert(sb.drop_first() =~= b@.subrange(i + 1, b@.len() as int));
        i += 1;
    }
    i < y.len()
}

fn insert_by_serial(out: &mut Vec<UsbDevice>, d: UsbDevice)
    requires
        sorted_by_serial(device_views(old(out)@)),
    ensures
        sorted_by_serial(device_views(final(out)@)),
        forall|key: Seq<char>|
            #[trigger] with_serial(device_views(final(out)@), key) == with_serial(
                device_views(old(out)@).push(d@),
                key,
            ),
{
    let ghost l = device_views(out@);
    let mut p: usize = 0;
    loop
        invariant
            p <= out@.len(),
            l == device_views(out@),
            forall|i: int| 0 <= i < p ==> !serial_lt(d@.serial, #[trigger] l[i].serial),
        ensures
            p <= out@.len(),
            l == device_views(out@),
            forall|i: int| 0 <= i < p ==> !serial_lt(d@.serial, #[trigger] l[i].serial),
            p < l.len() ==> serial_lt(d@.serial, l[p as int].serial),
        decreases out.len() - p,
    {
        if p == out.len() {
            break;
        }
        if serial_less(&d.serial, &out[p].serial) {
            break;
        }
        p += 1;
    }
    proof {
        lemma_insert_by_serial(l, d@, p as int);
    }
    out.insert(p, d);
    assert(device_views(out@) =~= l.insert(p as int, d@));
}

fn trimmed(s: &String) -> (t: String)
    ensures
        t@ == trim_ws(s@),
{
    let cs = chars_of(s.as_str());
    trimmed_string(&cs)
}

/// The device an accepted entry describes.
fn device_from_entry(e: &SysfsEntry, product: &String) -> (d: UsbDevice)
    requires
        product@ == trim_ws(e@.id_product),
        is_rtl_dongle(e@),
    ensures
        d@ == device_of(e@),
{
    let raw = match &e.serial {
        Some(s) => s.clone(),
        None => {
            let mut t = "unbound-".to_owned();
            push_str(&mut t, e.name.as_str());
            t
        },
    };
    let serial = trimmed(&raw);
    let name = chars_of(e.name.as_str());
    let port: u8 = if name.len() > 0 && '0' <= name[name.len() - 1] && name[name.len() - 1]
        <= '9' {
        (name[name.len() - 1] as u32 - 48) as u8
    } else {
        0
    };
    let product_id: u16 = if *product == "0x8832".to_owned() {
        0x8832
    } else if *product == "0x2838".to_owned() {
        0x2838
    } else {
        0x2832
    };
    UsbDevice { vendor_id: 0x0bda, product_id, serial, bus: 1, port }
}

impl UsbProbe for LibUsbProbe {
    /// The RTL2832U dongles of the snapshot, sorted by serial.
    fn scan(&self) -> (ds: Vec<UsbDevice>)
        ensures
            stable_sorted_by_serial(device_views(ds@), rtl_devices(entry_views(self.entries@))),
    {
        let ghost es = entry_views(self.entries@);
        let mut found: Vec<UsbDevice> = Vec::new();
        let mut i: usize = 0;
        assert(es.subrange(0, 0) =~= Seq::<SysfsModel>::empty());
        assert(device_views(found@) =~= Seq::<UsbDeviceModel>::empty());
        while i < self.entries.len()
            invariant
                i <= self.entries@.len(),
                es == entry_views(self.entries@),
                stable_sorted_by_serial(device_views(found@), rtl_devices(es.subrange(0, i as int))),
            decreases self.entries.len() - i,
        {
            let e = &self.entries[i];
            proof {
                assert(es.subrange(0, i + 1).drop_last() =~= es.subrange(0, i as int));
                assert(es.subrange(0, i + 1).last() == e@);
            }
            let vendor = trimmed(&e.id_vendor);
            let product = trimmed(&e.id_product);
            let accepted = vendor == "0bda".to_owned() && (product == "0x8832".to_owned() || product
                == "0x2838".to_owned() || product == "0x2832".to_owned());
            if accepted {
                let d = device_from_entry(e, &product);
                let ghost before = device_views(found@);
                insert_by_serial(&mut found, d);
                proof {
                    let input = rtl_devices(es.subrange(0, i as int));
                    assert forall|key: Seq<char>| #[trigger]
                        with_serial(device_views(found@), key) == with_serial(
                            rtl_devices(es.subrange(0, i + 1)),
                            key,
                        ) by {
                        let f = |d: UsbDeviceModel| d.serial == key;
                        before.lemma_filter_push(d@, f);
                        input.lemma_filter_push(d@, f);
                        assert(with_serial(before, key) == with_serial(input, key));
                    }
                }
            }
            i += 1;
        }
        assert(es.subrange(0, self.entries@.len() as int) =~= es);
        found
    }
}

// ---------------------------------------------------------------------------
// Channel binding
// ---------------------------------------------------------------------------

/// Static channel plan: role -> required dongle serial.
#[derive(Debug, Clone)]
pub struct ChannelPlan {
    pub bindings: Vec<(SdrRole, String)>,
    pub sample_rate_sps: u32,
}

pub open spec fn binding_views(bs: Seq<(SdrRole, String)>) -> Seq<(SdrRole, Seq<char>)> {
    bs.map_values(|b: (SdrRole, String)| (b.0, b.1@))
}

/// The installation default: each role locked to its bench serial, at
/// 2.4 Msps.
pub open spec fn default_bindings() -> Seq<(SdrRole, Seq<char>)> {
    seq![
        (SdrRole::AdsB, "00000001"@),
        (SdrRole::Acars, "00000002"@),
        (SdrRole::TacScan, "00000003"@),
    ]
}

impl Default for ChannelPlan {
    fn default() -> (p: Self)
        ensures
            binding_views(p.bindings@) == default_bindings(),
            p.sample_rate_sps == 2_400_000,
    {
        let mut bindings = Vec::new();
        bindings.push((SdrRole::AdsB, "00000001".to_owned()));
        bindings.push((SdrRole::Acars, "00000002".to_owned()));
        bindings.push((SdrRole::TacScan, "00000003".to_owned()));
        assert(binding_views(bindings@) =~= default_bindings());
        ChannelPlan { bindings, sample_rate_sps: 2_400_000 }
    }
}

/// The part of a channel's hardware status that binding decides.
#[derive(Debug, Clone)]
pub struct ChannelStatus {
    pub channel_id: String,
    pub role: String,
    pub serial_lock: String,
    pub frequency_hz: u32,
    pub sample_rate_sps: u32,
    pub online: bool,
    pub usb_port: Option<String>,
}

/// Resolved runtime view of one channel.
#[derive(Debug, Clone)]
pub struct BoundChannel {
    pub role: SdrRole,
    pub status: ChannelStatus,
}

pub struct BoundModel {
    pub role: SdrRole,
    pub channel_id: Seq<char>,
    pub role_name: Seq<char>,
    pub serial_lock: Seq<char>,
    pub frequency_hz: u32,
    pub sample_rate_sps: u32,
    pub online: bool,
    pub usb_port: Option<Seq<char>>,
}

impl View for BoundChannel {
    type V = BoundModel;

    open spec fn view(&self) -> BoundModel {
        BoundModel {
            role: self.role,
            channel_id: self.status.channel_id@,
            role_name: self.status.role@,
            serial_lock: self.status.serial_lock@,
            frequency_hz: self.status.frequency_hz,
            sample_rate_sps: self.status.sample_rate_sps,
            online: self.status.online,
            usb_port: match self.status.usb_port {
                Some(p) => Some(p@),
                None => None,
            },
        }
    }
}

/// Index of the first device carrying `serial`.
pub open spec fn first_with_serial(ds: Seq<UsbDeviceModel>, serial: Seq<char>, from: int) -> Option<int>
    decreases ds.len() - from,
{
    if from < 0 || from >= ds.len() {
        None
    } else if ds[from].serial == serial {
        Some(from)
    } else {
        first_with_serial(ds, serial, from + 1)
    }
}

/// `bus<b>-port<p>`.
pub open spec fn port_label(d: UsbDeviceModel) -> Seq<char> {
    "bus"@ + decimal(d.bus as nat) + "-port"@ + decimal(d.port as nat)
}

/// One role bound against the inventory: online exactly when a dongle with
/// the locked serial is present, and then on that dongle's port.
pub open spec fn bind_one(
    role: SdrRole,
    serial: Seq<char>,
    sample_rate_sps: u32,
    ds: Seq<UsbDeviceModel>,
) -> BoundModel {
    let m = first_with_serial(ds, serial, 0);
    BoundModel {
        role,
        channel_id: channel_label(role),
        role_name: role_label(role),
        serial_lock: serial,
        frequency_hz: role_frequency_hz(role),
        sample_rate_sps,
        online: m is Some,
        usb_port: match m {
            Some(i) => Some(port_label(ds[i])),
            None => None,
        },
    }
}

fn find_serial(devices: &[UsbDevice], serial: &String) -> (r: Option<usize>)
    ensures
        r matches Some(i) ==> first_with_serial(device_views(devices@), serial@, 0) == Some(
            i as int,
        ) && i < devices@.len(),
        r is None ==> first_with_serial(device_views(devices@), serial@, 0) is None,
{
    let ghost ds = device_views(devices@);
    let mut i: usize = 0;
    while i < devices.len()
        invariant
            i <= devices@.len(),
            ds == device_views(devices@),
            first_with_serial(ds, serial@, 0) == first_with_serial(ds, serial@, i as int),
        decreases devices.len() - i,
    {
        if devices[i].serial == *serial {
            return Some(i);
        }
        i += 1;
    }
    None
}

/// Validates `plan` against `devices`, binding each role to its locked serial.
pub fn bind_channels(plan: &ChannelPlan, devices: &[UsbDevice]) -> (out: Vec<BoundChannel>)
    ensures
        out@.len() == plan.bindings@.len(),
        forall|i: int|
            0 <= i < out@.len() ==> #[trigger] out@[i]@ == bind_one(
                plan.bindings@[i].0,
                plan.bindings@[i].1@,
                plan.sample_rate_sps,
                device_views(devices@),
            ),
{
    let mut out: Vec<BoundChannel> = Vec::new();
    let mut i: usize = 0;
    while i < plan.bindings.len()
        invariant
            i <= plan.bindings@.len(),
            out@.len() == i,
            forall|j: int|
                0 <= j < i ==> #[trigger] out@[j]@ == bind_one(
                    plan.bindings@[j].0,
                    plan.bindings@[j].1@,
                    plan.sample_rate_sps,
                    device_views(devices@),
                ),
        decreases plan.bindings.len() - i,
    {
        let role = plan.bindings[i].0;
        let serial = &plan.bindings[i].1;
        let matched = find_serial(devices, serial);
        let usb_port = match matched {
            Some(k) => {
                let d = &devices[k];
                let mut label = "bus".to_owned();
                push_decimal(&mut label, d.bus as u64);
                push_str(&mut label, "-port");
                push_decimal(&mut label, d.port as u64);
                Some(label)
            },
            None => None,
        };
        let status = ChannelStatus {
            channel_id: role.channel_id().to_owned(),
            role: role.role_name().to_owned(),
            serial_lock: serial.clone(),
            frequency_hz: role.default_frequency_hz(),
            sample_rate_sps: plan.sample_rate_sps,
            online: matched.is_some(),
            usb_port,
        };
        out.push(BoundChannel { role, status });
        i += 1;
    }
    out
}

} // verus!
