//! Standard output through the host's log: each written string is sent in
//! its array-buffer layout.
use crate::compat::{arraybuffer_layout, layout_bytes};
use vstd::prelude::*;
use vstd::string::StringSliceAdditionalSpecFns;

verus! {

/// The writer that sends text to the host's log.
pub struct Stdout(());

/// The writer that sends text to the host's log.
pub fn stdout() -> Stdout {
    Stdout(())
}

impl Stdout {
    /// What writing `s` sends to the log: the array-buffer layout of its UTF-8 bytes.
    pub fn log_frame(&self, s: &str) -> (r: Vec<u8>)
        ensures
            r@ == arraybuffer_layout(s.spec_bytes()),
    {
        layout_bytes(s.as_bytes())
    }
}

} // verus!
