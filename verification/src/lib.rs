pub mod api;
pub mod channel;
pub mod decode;
pub mod encode;
pub mod todos;
pub mod wire;
