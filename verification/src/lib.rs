//! Verified core of the nobz Usenet client.
pub mod aggregate;
pub mod backend;
pub mod caps_parser;
pub mod cats;
pub mod dates;
pub mod display;
pub mod engine;
pub mod error;
pub mod newznab;
pub mod nntp;
pub mod nzb;
pub mod order;
pub mod postprocess;
pub mod queue;
pub mod queue_tab;
pub mod search_parser;
pub mod search_tab;
pub mod settings;
pub mod settings_tab;
pub mod text;
pub mod types;
pub mod unpack;
pub mod win95_widgets;
pub mod xml;
