//! Verified core of a cockpit for WiFi-camera toy drones: wire protocol, control
//! link decisions, video reassembly, AVI muxing, heads-up display and input logic.

pub mod avi;
pub mod bytes;
pub mod capture;
pub mod cast;
pub mod cockpit;
pub mod color;
pub mod display;
pub mod font;
pub mod hud;
pub mod jpeg;
pub mod net;
pub mod overlay;
pub mod pad;
pub mod probe;
pub mod progressive;
pub mod protocol;
pub mod raster;
pub mod scan;
pub mod session;
pub mod settings;
pub mod text;
pub mod video;
pub mod viewer;
pub mod watchdog;
