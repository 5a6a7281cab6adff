//! Values shared with the host runtime. The host calls themselves live
//! outside the library.
use vstd::prelude::*;

verus! {

/// Log level the SDK uses for informational messages.
pub const LOG_INFO: u32 = 1;

/// Handle of an HTML document or selection held by the host.
#[derive(Clone, Copy)]
pub struct HtmlDescriptor {
    raw: i32,
}

impl View for HtmlDescriptor {
    type V = i32;

    closed spec fn view(&self) -> i32 {
        self.raw
    }
}

impl HtmlDescriptor {
    pub fn from_raw(raw: i32) -> (r: Self)
        ensures
            r@ == raw,
    {
        Self { raw }
    }

    pub fn raw(&self) -> (r: i32)
        ensures
            r == self@,
    {
        self.raw
    }
}

} // verus!
