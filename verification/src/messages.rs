use vstd::prelude::*;

verus! {

/// An interrupt raised by a device.
#[derive(Debug, Clone, Copy, PartialEq, Eq)]
pub enum HardwareInterrupt {
    Keyboard { scancode: u8 },
}

/// What the keyboard reported.
#[derive(Debug, Clone, Copy, PartialEq, Eq)]
pub enum KeyboardEvent {
    Touch { key: u8 },
}

/// Turns hardware interrupts into the events they stand for.
pub struct HardwareInterruptMapper {}

impl HardwareInterruptMapper {
    /// The keyboard event of a keyboard interrupt: the scan code it carries.
    pub fn from_keyboard(hardware_interrupt: HardwareInterrupt) -> (event: KeyboardEvent)
        ensures
            match hardware_interrupt {
                HardwareInterrupt::Keyboard { scancode } => event == (KeyboardEvent::Touch { key: scancode }),
            },
    {
        match hardware_interrupt {
            HardwareInterrupt::Keyboard { scancode } => KeyboardEvent::Touch { key: scancode },
        }
    }
}

} // verus!
