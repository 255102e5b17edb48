//! Verified core logic of a retro software-rendered game and its frame
//! presenter: frame-message parsing and presentation requests, packet
//! acknowledgement, reliable delivery and message framing for the network
//! layer, grid levels and shortest-path search for bots, text overlays and
//! bitmap fonts, texture assets and atlases, sprite animation frames, color
//! helpers, launch options and GPU setup choices.

mod chars;
pub mod presentation;
pub mod runtime;
pub mod server;
pub mod frame;
pub mod gpu_select;
pub mod fir;
pub mod framing;
pub mod ack;
pub mod reliable;
pub mod endpoint;
pub mod texture;
pub mod model;
pub mod mesh;
pub mod path;
pub mod animation;
pub mod atlas;
pub mod color;
pub mod launch;
pub mod rgba;
pub mod font;
pub mod text_layer;
