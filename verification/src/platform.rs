//! The few things the browser needs from the desktop it is running on: a clipboard write
//! and "open this file in whatever the desktop uses for it".

use vstd::prelude::*;

verus! {

/// What a frontend provides so the browser can reach the desktop. Implemented once per
/// frontend.
pub trait Platform {
    /// Put `text` on the system clipboard.
    fn copy_text(&self, text: &str);

    /// Open `path` in the desktop's default application for it.
    fn open_path(&self, path: &str);
}

/// A [`Platform`] that does nothing, for tests and headless use.
#[derive(Debug, Default, Clone, Copy)]
pub struct NullPlatform;

impl Platform for NullPlatform {
    fn copy_text(&self, _text: &str) {
    }

    fn open_path(&self, _path: &str) {
    }
}

} // verus!
