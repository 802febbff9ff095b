use vstd::prelude::*;

verus! {

/// The user's font-size preference in pixels. It is read once at startup
/// from the persistence collaborator and written back on every change;
/// the core only defines the value and its starting point.
#[derive(Clone, Copy, PartialEq, Eq, Structural)]
pub struct FontSize(pub u32);

impl Default for FontSize {
    /// The preference before the user has ever set one.
    fn default() -> (r: Self)
        ensures
            r.0 == 26,
    {
        FontSize(26)
    }
}

} // verus!
