//! Verified core of a small dual-core microcontroller firmware.
//!
//! The heart of the crate is [`allocator`]: a first-fit dynamic memory
//! allocator that manages one contiguous region through a chain of block
//! headers, proved to keep the chain tiling the region exactly. Around it
//! sit the pieces of the firmware's command path that are pure logic: the
//! inter-core FIFO message frames ([`fifomsg`]), the serial byte-framing
//! state machine ([`usb`]), and the bounded message queues shared between
//! the cores ([`sharedmessage`]). Board bring-up, interrupts and the USB
//! bus itself are left to the embedding program.

pub mod allocator;
pub mod fifomsg;
pub mod sharedmessage;
pub mod usb;
