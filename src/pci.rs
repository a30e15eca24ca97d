//! PCI configuration-space addressing and the device table that a bus
//! scan fills.
use vstd::prelude::*;
use bit_field::BitField;

verus! {

/// Capacity of the device table.
pub const MAX_DEVICES: usize = 32;

/// Functions per device.
pub const MAX_FUNCTIONS: usize = 8;

/// Vendor id that an absent function reads as.
pub const INVALID_VENDOR_ID: u16 = 0xffff;

/// `value` with bits `[start, end)` replaced by `field`.
pub open spec fn with_bits(value: u32, start: u32, end: u32, field: u32) -> u32 {
    (value & !((0xffff_ffffu32 >> ((32 - (end - start)) as u32)) << start)) | (field << start)
}

/// Relies on bit_field's BitField::set_bits for u32, which replaces bits
/// `start..end` by `field` (and panics when `field` does not fit).
#[verifier::external_body]
fn set_bits_u32(value: u32, start: u32, end: u32, field: u32) -> (r: u32)
    requires
        start < end <= 32,
        end - start == 32 || field < (1u64 << ((end - start) as u64)),
    ensures
        r == with_bits(value, start, end, field),
{
    let mut v = value;
    v.set_bits((start as usize)..(end as usize), field);
    v
}

/// Relies on bit_field's BitField::set_bit for u32, which sets bit `bit`
/// when asked for `true`.
#[verifier::external_body]
fn set_bit_u32(value: u32, bit: u32) -> (r: u32)
    requires
        bit < 32,
    ensures
        r == value | (1u32 << bit),
{
    let mut v = value;
    v.set_bit(bit as usize, true);
    v
}

/// The CONFIG_ADDRESS word that selects register `reg` of a function:
/// the enable bit, then bus, device, function and register.
pub open spec fn config_address(bus: u8, device: u8, function: u8, reg: u8) -> u32 {
    0x8000_0000u32 | ((bus as u32) << 16u32) | ((device as u32) << 11u32) | ((function as u32) << 8u32)
        | (reg as u32)
}

/// The class code register of a function, split into its four bytes.
#[derive(Clone, Copy, Debug, PartialEq, Eq, Structural)]
pub struct ClassCode {
    pub base: u8,
    pub sub: u8,
    pub interface: u8,
    pub revision: u8,
}

impl ClassCode {
    /// Splits the raw class code register: base class in the top byte,
    /// revision in the bottom one.
    pub fn from_register(r: u32) -> (c: ClassCode)
        ensures
            c.base == (r >> 24u32) & 0xff,
            c.sub == (r >> 16u32) & 0xff,
            c.interface == (r >> 8u32) & 0xff,
            c.revision == r & 0xff,
    {
        assert((r >> 24u32) & 0xff <= 0xff && (r >> 16u32) & 0xff <= 0xff && (r >> 8u32) & 0xff <= 0xff
            && r & 0xff <= 0xff) by (bit_vector);
        ClassCode {
            base: ((r >> 24u32) & 0xff) as u8,
            sub: ((r >> 16u32) & 0xff) as u8,
            interface: ((r >> 8u32) & 0xff) as u8,
            revision: (r & 0xff) as u8,
        }
    }

    /// A PCI-to-PCI bridge, behind which another bus lies.
    pub fn is_pci_bridge(&self) -> (r: bool)
        ensures
            r == (self.base == 0x06 && self.sub == 0x04),
    {
        self.base == 0x06 && self.sub == 0x04
    }
}

/// One PCI function, by bus, device and function number.
#[derive(Clone, Copy, Debug, PartialEq, Eq, Structural)]
pub struct Device {
    pub bus: u8,
    pub device: u8,
    pub function: u8,
}

impl Device {
    pub fn new(bus: u8, device: u8, function: u8) -> (r: Device)
        ensures
            r == (Device { bus, device, function }),
    {
        Device { bus, device, function }
    }

    /// The CONFIG_ADDRESS word for register `reg` of this function.
    pub fn make_address(self, reg: u8) -> (r: u32)
        requires
            self.device < 32,
            self.function < 8,
        ensures
            r == config_address(self.bus, self.device, self.function, reg),
    {
        let r0 = reg as u32;
        let f = self.function as u32;
        let d = self.device as u32;
        let b = self.bus as u32;
        assert(r0 < 256 ==> (r0 as u64) < (1u64 << 8u64)) by (bit_vector);
        assert(f < 8 ==> (f as u64) < (1u64 << 3u64)) by (bit_vector);
        assert(d < 32 ==> (d as u64) < (1u64 << 5u64)) by (bit_vector);
        assert(b < 256 ==> (b as u64) < (1u64 << 8u64)) by (bit_vector);
        let mut value: u32 = 0;
        value = set_bits_u32(value, 0, 8, r0);
        value = set_bits_u32(value, 8, 11, f);
        value = set_bits_u32(value, 11, 16, d);
        value = set_bits_u32(value, 16, 24, b);
        value = set_bit_u32(value, 31);
        assert(with_bits(
            with_bits(with_bits(with_bits(0, 0, 8, r0), 8, 11, f), 11, 16, d),
            16,
            24,
            b,
        ) | (1u32 << 31u32) == 0x8000_0000u32 | (b << 16u32) | (d << 11u32) | (f << 8u32) | r0)
            by (bit_vector)
            requires
                r0 < 256,
                f < 8,
                d < 32,
                b < 256,
        ;
        value
    }
}

/// Vendor id in the low half of register 0.
pub fn vendor_id_of(r: u32) -> (v: u16)
    ensures
        v == r & 0xffff,
{
    assert(r & 0xffff <= 0xffff) by (bit_vector);
    (r & 0xffff) as u16
}

/// Header type in bits 16..24 of register 0x0c.
pub fn header_type_of(r: u32) -> (h: u8)
    ensures
        h == (r >> 16u32) & 0xff,
{
    assert((r >> 16u32) & 0xff <= 0xff) by (bit_vector);
    ((r >> 16u32) & 0xff) as u8
}

/// Bit 7 of the header type is clear for a single-function device.
pub fn is_single_function(header_type: u8) -> (r: bool)
    ensures
        r == (header_type & 0x80 == 0),
{
    header_type & 0x80 == 0
}

/// Secondary bus number in bits 8..16 of a bridge's bus-number register.
pub fn secondary_bus_of(bus_numbers: u16) -> (b: u8)
    ensures
        b == (bus_numbers >> 8u16) & 0xff,
{
    assert((bus_numbers >> 8u16) & 0xff <= 0xff) by (bit_vector);
    ((bus_numbers >> 8u16) & 0xff) as u8
}

/// `read` answers a configuration read for every CONFIG_ADDRESS word, and
/// answers the same word the same way for the whole scan.
pub open spec fn reader_ok<F: Fn(u32) -> u32>(read: F) -> bool {
    &&& forall|a: u32| read.requires((a,))
    &&& forall|a: u32, v1: u32, v2: u32| read.ensures((a,), v1) && read.ensures((a,), v2) ==> v1 == v2
}

/// What `read` answers for register `reg` of function `d`.
pub open spec fn reg<F: Fn(u32) -> u32>(read: F, d: Device, reg: u8) -> u32 {
    choose|v: u32| read.ensures((config_address(d.bus, d.device, d.function, reg),), v)
}

/// Function `d` answers with a vendor id other than the absent one.
pub open spec fn present<F: Fn(u32) -> u32>(read: F, d: Device) -> bool {
    reg(read, d, 0x00) & 0xffff != INVALID_VENDOR_ID as u32
}

/// Bit 7 of the header type of `d` is clear.
pub open spec fn single_function<F: Fn(u32) -> u32>(read: F, d: Device) -> bool {
    (reg(read, d, 0x0c) >> 16u32) & 0xff & 0x80 == 0
}

/// `d` is a PCI-to-PCI bridge.
pub open spec fn bridge<F: Fn(u32) -> u32>(read: F, d: Device) -> bool {
    (reg(read, d, 0x08) >> 24u32) & 0xff == 0x06 && (reg(read, d, 0x08) >> 16u32) & 0xff == 0x04
}

/// The bus behind bridge `d`.
pub open spec fn secondary<F: Fn(u32) -> u32>(read: F, d: Device) -> u8 {
    (((reg(read, d, 0x18) & 0xffff) >> 8u32) & 0xff) as u8
}

/// The table after scanning devices `d..32` of `bus`, starting from `devs`.
/// `fuel` bounds how many bridges deep the scan may still go.
pub open spec fn scan_bus_from<F: Fn(u32) -> u32>(read: F, fuel: int, bus: u8, d: int, devs: Seq<Device>) -> Seq<Device>
    decreases fuel, 3int, 32 - d,
{
    if fuel < 0 || d < 0 || d >= MAX_DEVICES {
        devs
    } else {
        let next = if present(read, Device { bus, device: d as u8, function: 0 }) {
            scan_device_spec(read, fuel, bus, d as u8, devs)
        } else {
            devs
        };
        scan_bus_from(read, fuel, bus, d + 1, next)
    }
}

/// The table after scanning device `device` of `bus`: function 0, then,
/// for a multi-function device, every other function that is present.
pub open spec fn scan_device_spec<F: Fn(u32) -> u32>(read: F, fuel: int, bus: u8, device: u8, devs: Seq<Device>) -> Seq<Device>
    decreases fuel, 2int, 0int,
{
    if fuel < 0 {
        devs
    } else {
        let next = scan_function_spec(read, fuel, bus, device, 0, devs);
        if single_function(read, Device { bus, device, function: 0 }) {
            next
        } else {
            scan_functions_from(read, fuel, bus, device, 1, next)
        }
    }
}

/// The table after scanning the present functions `f..8` of a device.
pub open spec fn scan_functions_from<F: Fn(u32) -> u32>(
    read: F,
    fuel: int,
    bus: u8,
    device: u8,
    f: int,
    devs: Seq<Device>,
) -> Seq<Device>
    decreases fuel, 1int, 8 - f,
{
    if fuel < 0 || f < 0 || f >= MAX_FUNCTIONS {
        devs
    } else {
        let next = if present(read, Device { bus, device, function: f as u8 }) {
            scan_function_spec(read, fuel, bus, device, f as u8, devs)
        } else {
            devs
        };
        scan_functions_from(read, fuel, bus, device, f + 1, next)
    }
}

/// The table after recording one function and, behind a bridge, scanning
/// its secondary bus; nothing changes once the table is full.
pub open spec fn scan_function_spec<F: Fn(u32) -> u32>(
    read: F,
    fuel: int,
    bus: u8,
    device: u8,
    function: u8,
    devs: Seq<Device>,
) -> Seq<Device>
    decreases fuel, 0int, 0int,
{
    if fuel <= 0 || devs.len() >= MAX_DEVICES {
        devs
    } else {
        let d = Device { bus, device, function };
        if bridge(read, d) {
            scan_bus_from(read, fuel - 1, secondary(read, d), 0, devs.push(d))
        } else {
            devs.push(d)
        }
    }
}

/// Scans the present host-bridge functions `f..8`, one bus each.
pub open spec fn scan_host_from<F: Fn(u32) -> u32>(read: F, f: int, devs: Seq<Device>) -> Seq<Device>
    decreases 8 - f,
{
    if f < 0 || f >= MAX_FUNCTIONS {
        devs
    } else {
        let next = if present(read, Device { bus: 0, device: 0, function: f as u8 }) {
            scan_bus_from(read, MAX_DEVICES - devs.len(), f as u8, 0, devs)
        } else {
            devs
        };
        scan_host_from(read, f + 1, next)
    }
}

/// The table a scan of every bus reachable from the host bridge fills: bus
/// 0 for a single-function host bridge, else bus `f` for each present
/// host-bridge function `f >= 1`.
pub open spec fn scan_all_spec<F: Fn(u32) -> u32>(read: F) -> Seq<Device> {
    if single_function(read, Device { bus: 0, device: 0, function: 0 }) {
        scan_bus_from(read, MAX_DEVICES as int, 0, 0, Seq::empty())
    } else {
        scan_host_from(read, 1, Seq::empty())
    }
}

fn read_register<F: Fn(u32) -> u32>(read: &F, d: Device, r: u8) -> (v: u32)
    requires
        reader_ok(read),
        d.device < 32,
        d.function < 8,
    ensures
        v == reg(read, d, r),
{
    let v = read(d.make_address(r));
    v
}

fn is_present<F: Fn(u32) -> u32>(read: &F, d: Device) -> (r: bool)
    requires
        reader_ok(read),
        d.device < 32,
        d.function < 8,
    ensures
        r == present(read, d),
{
    vendor_id_of(read_register(read, d, 0x00)) != INVALID_VENDOR_ID
}

fn is_single_function_device<F: Fn(u32) -> u32>(read: &F, d: Device) -> (r: bool)
    requires
        reader_ok(read),
        d.device < 32,
        d.function < 8,
    ensures
        r == single_function(read, d),
{
    let raw = read_register(read, d, 0x0c);
    let h = header_type_of(raw);
    assert(h & 0x80 == (((raw >> 16u32) & 0xff) & 0x80)) by (bit_vector)
        requires h == (raw >> 16u32) & 0xff;
    is_single_function(h)
}

/// The functions found so far, in the order found, at most `MAX_DEVICES`.
pub struct PciDevices {
    devices: Vec<Device>,
}

impl View for PciDevices {
    type V = Seq<Device>;

    closed spec fn view(&self) -> Seq<Device> {
        self.devices@
    }
}

impl PciDevices {
    pub closed spec fn wf(&self) -> bool {
        self.devices@.len() <= MAX_DEVICES
    }

    /// An empty table.
    pub fn new() -> (r: Self)
        ensures
            r.wf(),
            r@ == Seq::<Device>::empty(),
    {
        PciDevices { devices: Vec::new() }
    }

    /// Records `device`; once the table is full, further devices are dropped.
    pub fn add_device(&mut self, device: Device)
        requires
            old(self).wf(),
        ensures
            final(self).wf(),
            final(self)@ == if old(self)@.len() < MAX_DEVICES {
                old(self)@.push(device)
            } else {
                old(self)@
            },
    {
        if self.devices.len() >= MAX_DEVICES {
            return;
        }
        self.devices.push(device);
    }

    /// Scans every device of `bus`, and the buses behind any bridges found,
    /// recording each function found until the table is full.
    pub fn scan_bus<F: Fn(u32) -> u32>(&mut self, read: &F, bus: u8)
        requires
            old(self).wf(),
            reader_ok(read),
        ensures
            final(self).wf(),
            final(self)@ == scan_bus_from(read, MAX_DEVICES - old(self)@.len(), bus, 0, old(self)@),
    {
        self.scan_bus_with(read, bus, Ghost(MAX_DEVICES - self@.len()));
    }

    fn scan_bus_with<F: Fn(u32) -> u32>(&mut self, read: &F, bus: u8, Ghost(fuel): Ghost<int>)
        requires
            old(self).wf(),
            reader_ok(read),
            fuel >= MAX_DEVICES - old(self)@.len(),
        ensures
            final(self).wf(),
            final(self)@ == scan_bus_from(read, fuel, bus, 0, old(self)@),
            final(self)@.len() >= old(self)@.len(),
        decreases fuel, 3int,
    {
        let mut device: u8 = 0;
        while device < MAX_DEVICES as u8
            invariant
                self.wf(),
                reader_ok(read),
                device <= MAX_DEVICES,
                fuel >= MAX_DEVICES - self@.len(),
                self@.len() >= old(self)@.len(),
                scan_bus_from(read, fuel, bus, device as int, self@) == scan_bus_from(read, fuel, bus, 0, old(self)@),
            decreases MAX_DEVICES - device,
        {
            if is_present(read, Device::new(bus, device, 0)) {
                self.scan_device(read, bus, device, Ghost(fuel));
            }
            device += 1;
        }
    }

    fn scan_device<F: Fn(u32) -> u32>(&mut self, read: &F, bus: u8, device: u8, Ghost(fuel): Ghost<int>)
        requires
            old(self).wf(),
            reader_ok(read),
            device < 32,
            fuel >= MAX_DEVICES - old(self)@.len(),
        ensures
            final(self).wf(),
            final(self)@ == scan_device_spec(read, fuel, bus, device, old(self)@),
            final(self)@.len() >= old(self)@.len(),
        decreases fuel, 2int,
    {
        self.scan_function(read, bus, device, 0, Ghost(fuel));
        if is_single_function_device(read, Device::new(bus, device, 0)) {
            return;
        }
        let ghost first = self@;
        let mut function: u8 = 1;
        while function < MAX_FUNCTIONS as u8
            invariant
                self.wf(),
                reader_ok(read),
                device < 32,
                1 <= function <= MAX_FUNCTIONS,
                fuel >= MAX_DEVICES - self@.len(),
                self@.len() >= old(self)@.len(),
                scan_functions_from(read, fuel, bus, device, function as int, self@) == scan_functions_from(read, fuel, bus, device, 1, first),
            decreases MAX_FUNCTIONS - function,
        {
            if is_present(read, Device::new(bus, device, function)) {
                self.scan_function(read, bus, device, function, Ghost(fuel));
            }
            function += 1;
        }
    }

    fn scan_function<F: Fn(u32) -> u32>(&mut self, read: &F, bus: u8, device: u8, function: u8, Ghost(fuel): Ghost<int>)
        requires
            old(self).wf(),
            reader_ok(read),
            device < 32,
            function < 8,
            fuel >= MAX_DEVICES - old(self)@.len(),
        ensures
            final(self).wf(),
            final(self)@ == scan_function_spec(read, fuel, bus, device, function, old(self)@),
            final(self)@.len() >= old(self)@.len(),
        decreases fuel, 0int,
    {
        if self.devices.len() >= MAX_DEVICES {
            return;
        }
        let dev = Device::new(bus, device, function);
        self.add_device(dev);
        let class_code = ClassCode::from_register(read_register(read, dev, 0x08));
        if class_code.is_pci_bridge() {
            let raw = read_register(read, dev, 0x18);
            let bus_numbers = (raw & 0xffff) as u16;
            let secondary_bus = secondary_bus_of(bus_numbers);
            assert(secondary_bus == (((raw & 0xffff) >> 8u32) & 0xff) as u8) by (bit_vector)
                requires
                    secondary_bus == (bus_numbers >> 8u16) & 0xff,
                    bus_numbers == (raw & 0xffff) as u16,
            ;
            self.scan_bus_with(read, secondary_bus, Ghost(fuel - 1));
        }
    }

    /// Number of functions recorded.
    pub fn count(&self) -> (r: usize)
        ensures
            r == self@.len(),
    {
        self.devices.len()
    }

    /// The `i`-th function recorded.
    pub fn device(&self, i: usize) -> (r: Device)
        requires
            i < self@.len(),
        ensures
            r == self@[i as int],
    {
        self.devices[i]
    }
}

/// Scans every bus reachable from the host bridge: bus 0 when the host
/// bridge is a single-function device, else bus `f` for each present
/// host-bridge function `f` from 1 on.
pub fn scan_all_bus<F: Fn(u32) -> u32>(read: &F) -> (r: PciDevices)
    requires
        reader_ok(read),
    ensures
        r.wf(),
        r@ == scan_all_spec(read),
{
    let mut pci_devices = PciDevices::new();
    if is_single_function_device(read, Device::new(0, 0, 0)) {
        pci_devices.scan_bus(read, 0);
        return pci_devices;
    }
    let mut function: u8 = 1;
    while function < MAX_FUNCTIONS as u8
        invariant
            pci_devices.wf(),
            reader_ok(read),
            1 <= function <= MAX_FUNCTIONS,
            scan_host_from(read, function as int, pci_devices@) == scan_host_from(read, 1, Seq::empty()),
        decreases MAX_FUNCTIONS - function,
    {
        if is_present(read, Device::new(0, 0, function)) {
            pci_devices.scan_bus(read, function);
        }
        function += 1;
    }
    pci_devices
}

} // verus!
