//! The rules of PanelMC, a desktop panel for local Minecraft servers.

pub mod address;
pub mod backups;
pub mod cloud;
pub mod console;
pub mod digest;
pub mod dns;
pub mod icons;
pub mod json;
pub mod listing;
pub mod messages;
pub mod monitor;
pub mod numbers;
pub mod options;
pub mod percent;
pub mod pictures;
pub mod players;
pub mod playit;
pub mod properties;
pub mod ram;
pub mod releases;
pub mod servers;
pub mod sockets;
pub mod sorting;
pub mod status;
pub mod system;
pub mod tables;
pub mod text;
pub mod unicode;
pub mod worlds;
