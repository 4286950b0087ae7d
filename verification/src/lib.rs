//! The decision-making core of a push-to-talk dictation program.

pub mod audio;
pub mod config;
pub mod controller;
pub mod float;
pub mod hotkey;
pub mod listener;
pub mod loudness;
pub mod monitor;
pub mod output;
pub mod overlay;
pub mod pulse;
pub mod recording;
pub mod settings;
pub mod text;
pub mod tray;
pub mod whisper;
