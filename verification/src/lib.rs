//! Core of a live air-traffic fan-out service.
//!
//! Aircraft position reports are normalized into [`traffic_infos::TrafficInfos`]
//! records, broadcast on an internal bus, and fanned out to connected TCP
//! clients as GDL90 traffic-report frames, filtered by each client's own
//! position. This crate holds the verified logic: the record codec for the
//! bus, the length-prefixed stream framer, the GDL90 encoder, the client
//! session, the slot-table client pool, and the feed parsers. The sockets,
//! threads and event loop that drive it live outside the library.

pub mod client;
pub mod client_pool;
pub mod dgramostream;
pub mod gdl90;
pub mod internal_com;
pub mod server;
pub mod src_adsbhub;
pub mod src_ogn;
pub mod textparse;
pub mod traffic_infos;
pub mod wire;
