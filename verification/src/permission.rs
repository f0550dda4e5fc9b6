use vstd::prelude::*;

verus! {

/// Access level for a collaborator in a shared world.
#[derive(Debug, Clone, Copy, PartialEq, Eq, Structural)]
pub enum Permission {
    Owner,
    Editor,
    Viewer,
}

impl Permission {
    /// Whether this access level allows building in the world.
    pub open spec fn allows_building(self) -> bool {
        self is Owner || self is Editor
    }
}

impl Default for Permission {
    /// The default access level is `Viewer`.
    fn default() -> (p: Self)
        ensures
            p == Permission::Viewer,
    {
        Permission::Viewer
    }
}

} // verus!
