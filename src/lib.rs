use vstd::prelude::*;

pub mod laws;
pub mod protocol;
pub mod registry;
pub mod text;

pub use protocol::{
    client_id_line, handle_client_message, parse_client_id, parse_command, register_client,
    strip_terminator, Command, Outcome,
};
pub use registry::{ChatRoom, Client, ClientId, Delivery, Errors, RoomId, Server};
pub use text::parse_decimal;

verus! {

} // verus!
