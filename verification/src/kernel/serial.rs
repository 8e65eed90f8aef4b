//! The serial line: how it is set up, and when a byte can be sent.

use vstd::prelude::*;

verus! {

/// The port that takes bytes to send.
pub const DATA_PORT: u16 = 0x3f8;

/// The port that tells how the line does.
pub const STATUS_PORT: u16 = 0x3fd;

/// A byte for a port.
#[derive(Clone, Copy, Debug, PartialEq, Eq, Structural)]
pub struct PortWrite {
    pub port: u16,
    pub value: u8,
}

/// What sets the line up: no interrupts, 38400 bits a second, eight bits without
/// parity, buffers on and empty, ready to send.
pub open spec fn set_up() -> Seq<PortWrite> {
    seq![
        PortWrite { port: 0x3f9, value: 0x00 },
        PortWrite { port: 0x3fb, value: 0x80 },
        PortWrite { port: 0x3f8, value: 0x03 },
        PortWrite { port: 0x3f9, value: 0x00 },
        PortWrite { port: 0x3fb, value: 0x03 },
        PortWrite { port: 0x3fa, value: 0xc7 },
        PortWrite { port: 0x3fc, value: 0x0b },
    ]
}

/// Set the line up, the first time this is asked for.
pub fn serial_init(ready: &mut bool) -> (r: Vec<PortWrite>)
    ensures
        *final(ready),
        r@ == (if *old(ready) {
            Seq::empty()
        } else {
            set_up()
        }),
{
    let mut out: Vec<PortWrite> = Vec::new();
    if *ready {
        return out;
    }
    *ready = true;
    out.push(PortWrite { port: 0x3f9, value: 0x00 });
    out.push(PortWrite { port: 0x3fb, value: 0x80 });
    out.push(PortWrite { port: 0x3f8, value: 0x03 });
    out.push(PortWrite { port: 0x3f9, value: 0x00 });
    out.push(PortWrite { port: 0x3fb, value: 0x03 });
    out.push(PortWrite { port: 0x3fa, value: 0xc7 });
    out.push(PortWrite { port: 0x3fc, value: 0x0b });
    assert(out@ =~= set_up());
    out
}

/// Send a byte, if the status says that the line can take one; else ask again.
pub fn serial_write_byte(status: u8, b: u8) -> (r: Option<PortWrite>)
    ensures
        r == (if (status / 32) % 2 == 1 {
            Some(PortWrite { port: DATA_PORT, value: b })
        } else {
            None
        }),
{
    if (status / 32) % 2 == 1 {
        Some(PortWrite { port: DATA_PORT, value: b })
    } else {
        None
    }
}

} // verus!
