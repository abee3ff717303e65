//! Protocol engine for configuring a sensor device over a serial line:
//! command framing, signature identification and the typed item codec.

pub mod text;
pub mod item;
pub mod channel;
pub mod signature;
pub mod device;

pub use channel::{BorosSerial, DeviceError, VERSION_QUERY, CONFIG_QUERY, FACTORY_RESET};
pub use device::{Device, Root, Section, WritePlan, WriteCommand, WriteStep, FieldRef, parse_config};
pub use item::{Choice, ConfItem};
pub use signature::{Signature, parse_signature};
