pub mod bytes;
pub mod context;
pub mod decode;
pub mod decoder;
pub mod encode;
pub mod encoder;
pub mod header;
pub mod layout;
pub mod message;
pub mod roundtrip;
pub mod values;
pub mod aligned;
pub mod wire;
pub mod slices;
