//! Interrupt vector numbers of the hardware interrupt sources.
use vstd::prelude::*;

verus! {

/// The vector of the first interrupt routed through the I/O APIC.
pub const IOAPIC_INTERRUPT_INDEX_OFFSET: u8 = 32;

/// The vector of the first interrupt of the local APIC.
pub const LAPIC_INTERRUPT_INDEX_OFFSET: u8 = 46;

/// The interrupt sources, each with its vector in the descriptor table.
#[derive(Clone, Copy, Debug, PartialEq, Eq, Structural)]
pub enum InterruptIndex {
    IoApic,
    Pit,
    Keyboard,
    CascadeForSecondPic,
    SerialPort2Controller,
    SerialPort1Controller,
    ParallelPort2And3OrSoundCard,
    FloppyDiskController,
    ParallelPort1OrPrinter,
    Rtc,
    GeneralIOAndSound,
    Acpi,
    UsbAndNetwork,
    Mouse,
    ApicError,
    Timer,
    Spurious,
}

/// The vector of each interrupt source: the I/O APIC's sources from 32 on,
/// in their order, and the local APIC's from 46 on.
pub open spec fn vector(i: InterruptIndex) -> u8 {
    match i {
        InterruptIndex::IoApic => 32,
        InterruptIndex::Pit => 33,
        InterruptIndex::Keyboard => 34,
        InterruptIndex::CascadeForSecondPic => 35,
        InterruptIndex::SerialPort2Controller => 36,
        InterruptIndex::SerialPort1Controller => 37,
        InterruptIndex::ParallelPort2And3OrSoundCard => 38,
        InterruptIndex::FloppyDiskController => 39,
        InterruptIndex::ParallelPort1OrPrinter => 40,
        InterruptIndex::Rtc => 41,
        InterruptIndex::GeneralIOAndSound => 42,
        InterruptIndex::Acpi => 43,
        InterruptIndex::UsbAndNetwork => 44,
        InterruptIndex::Mouse => 45,
        InterruptIndex::ApicError => 46,
        InterruptIndex::Timer => 47,
        InterruptIndex::Spurious => 48,
    }
}

impl InterruptIndex {
    /// The vector of this source.
    pub fn as_u8(self) -> (r: u8)
        ensures
            r == vector(self),
    {
        match self {
            InterruptIndex::IoApic => IOAPIC_INTERRUPT_INDEX_OFFSET,
            InterruptIndex::Pit => 33,
            InterruptIndex::Keyboard => 34,
            InterruptIndex::CascadeForSecondPic => 35,
            InterruptIndex::SerialPort2Controller => 36,
            InterruptIndex::SerialPort1Controller => 37,
            InterruptIndex::ParallelPort2And3OrSoundCard => 38,
            InterruptIndex::FloppyDiskController => 39,
            InterruptIndex::ParallelPort1OrPrinter => 40,
            InterruptIndex::Rtc => 41,
            InterruptIndex::GeneralIOAndSound => 42,
            InterruptIndex::Acpi => 43,
            InterruptIndex::UsbAndNetwork => 44,
            InterruptIndex::Mouse => 45,
            InterruptIndex::ApicError => LAPIC_INTERRUPT_INDEX_OFFSET,
            InterruptIndex::Timer => 47,
            InterruptIndex::Spurious => 48,
        }
    }

    /// The vector of this source, as an index into the descriptor table.
    pub fn as_usize(self) -> (r: usize)
        ensures
            r == vector(self),
    {
        self.as_u8() as usize
    }
}

/// The interrupt sources by their input line on the I/O APIC.
#[derive(Clone, Copy, Debug, PartialEq, Eq, Structural)]
pub enum IoApicTableIndex {
    Pit,
    Keyboard,
    Mouse,
}

/// The input line of each source on the I/O APIC; the keyboard and the
/// mouse keep their legacy lines, the timer is remapped to line 0.
pub open spec fn input_line(i: IoApicTableIndex) -> u8 {
    match i {
        IoApicTableIndex::Pit => 0,
        IoApicTableIndex::Keyboard => 1,
        IoApicTableIndex::Mouse => 12,
    }
}

impl IoApicTableIndex {
    /// The input line of this source.
    pub fn as_u8(self) -> (r: u8)
        ensures
            r == input_line(self),
    {
        match self {
            IoApicTableIndex::Pit => 0,
            IoApicTableIndex::Keyboard => 1,
            IoApicTableIndex::Mouse => 12,
        }
    }

    /// The input line of this source, as an index.
    pub fn as_usize(self) -> (r: usize)
        ensures
            r == input_line(self),
    {
        self.as_u8() as usize
    }
}

} // verus!
