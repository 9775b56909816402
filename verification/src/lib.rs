//! Verified core of a command-line controller for Govee lights: the LAN packet
//! framing, the base64 and hex codecs it relies on, scene command building, screen
//! geometry for DreamView, and the small decisions of the cloud client.

pub mod base64;
pub mod cloud;
pub mod color;
pub mod dreamview;
pub mod effect;
pub mod lan;
pub mod packet;
pub mod parse;
pub mod scene;
pub mod screen;
pub mod sides;
pub mod text;
pub mod timing;
