//! A network device over virtio: the transport, the queues and the packets.

pub mod bringup;
pub mod device;
pub mod init;
pub mod net;
pub mod queue;
pub mod wire;
