//! wisp's editor core: the verified half.
//!
//! the software renderer and its draw-command cache (with the proof that
//! the cache never shows), image decoding, glyph layout, the fuzzy matcher,
//! key naming, and the decisions of the terminal, subprocess, watch,
//! data-directory and coroutine-driver modules. everything that talks to a
//! window, a pty, a thread, lua or the file system lives in the companion
//! crate under app/, which hands this library plain values.

pub mod renderer;
pub mod rencache;
pub mod redraw;
pub mod image;
pub mod font;
pub mod api;
pub mod keys;
mod strings;
pub mod terminal;
pub mod process;
pub mod watch;
pub mod embed;
pub mod boot;
pub mod clicks;
