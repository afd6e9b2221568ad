use vstd::prelude::*;

verus! {

/// What a press on the map does: move and select nodes, or pick the node
/// that a new connection starts from.
pub enum Mode {
    Normal,
    Connect,
}

impl Mode {
    /// The mode that the mode button switches to.
    pub open spec fn spec_next(self) -> Mode {
        match self {
            Mode::Normal => Mode::Connect,
            Mode::Connect => Mode::Normal,
        }
    }

    /// The mode that the mode button switches to.
    pub fn next(&self) -> (r: Self)
        ensures
            r == self.spec_next(),
    {
        match self {
            Self::Normal => Self::Connect,
            Self::Connect => Self::Normal,
        }
    }

    /// The label of the mode button.
    pub fn text(&self) -> (r: &str)
        ensures
            self is Normal ==> r@ == "Normal"@,
            self is Connect ==> r@ == "Connect"@,
    {
        match self {
            Self::Normal => "Normal",
            Self::Connect => "Connect",
        }
    }

    /// Whether this is the normal mode.
    pub fn is_normal(&self) -> (r: bool)
        ensures
            r == (self is Normal),
    {
        match self {
            Self::Normal => true,
            _ => false,
        }
    }
}

/// Switching the mode twice leads back to the mode one started from.
pub proof fn law_next_twice(m: Mode)
    ensures
        m.spec_next().spec_next() == m,
{
}

} // verus!
