//! Verified core of the Strata live-wallpaper engine.
use vstd::prelude::*;

pub mod archive;
pub mod audio;
pub mod compositor;
pub mod config;
pub mod controller;
pub mod depth;
pub mod desktop;
pub mod document;
pub mod inpaint;
pub mod library_sync;
pub mod library_view;
pub mod lists;
pub mod main_window;
pub mod manifest;
pub mod movies;
pub mod notices;
pub mod parallax;
pub mod paths;
pub mod pipeline;
pub mod platform;
pub mod preprocessor;
pub mod renderer;
pub mod segment;
pub mod settings;
pub mod shadertoy_import;
pub mod studio;
pub mod text;
pub mod thumbnail;
pub mod uniform;
pub mod updates;
pub mod upscale;
pub mod video;

verus! {

} // verus!
