//! The logic of Steam Punk, which launches game trainers for Windows through
//! Proton into the wine session of a running Steam game.
//!
//! The library decides and computes; it neither reads files, nor starts
//! processes, nor sends requests. What was read comes in as plain values, and
//! what is to be done goes out as plain values.

pub mod applog;
pub mod calendar;
pub mod clock;
pub mod dotnet;
pub mod gamedata;
pub mod json;
pub mod launcher;
pub mod library;
pub mod paths;
pub mod process;
pub mod repair;
pub mod running;
pub mod session;
pub mod setup;
pub mod steam;
pub mod table;
pub mod text;
