//! The verified core of a Wayland protocol-adapting proxy.

pub mod actives;
pub mod addons;
pub mod args;
pub mod basics;
pub mod buffers;
pub mod builtin;
pub mod chunk;
pub mod clip_laws;
pub mod debug;
pub mod debug_laws;
pub mod dump;
pub mod event_loop;
pub mod for_handlers;
pub mod gather;
pub mod handlers;
pub mod header;
pub mod limit_laws;
pub mod limits;
pub mod link_laws;
pub mod linkup;
pub mod listener;
pub mod listing_laws;
pub mod map;
pub mod mediator;
pub mod message;
pub mod message_laws;
pub mod options;
pub mod outbuffer;
pub mod outcome_laws;
pub mod parse;
pub mod parse_laws;
pub mod postparse;
pub mod protocol;
pub mod relay_laws;
pub mod session;
pub mod session_laws;
pub mod setup;
pub mod setup_laws;
pub mod socket_events;
pub mod streams;
pub mod terminator;
pub mod text;
pub mod text_laws;
pub mod version_info;
pub mod wire_laws;
pub mod xml;
