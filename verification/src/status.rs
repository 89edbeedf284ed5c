use vstd::prelude::*;

verus! {

/// Classification of a crossing node: at this crossing the boundary of the
/// owning curve passes from outside to inside of the other curve (`Enter`)
/// or from inside to outside (`Exit`).
#[derive(Clone, Copy, Debug, PartialEq, Eq, Structural)]
pub enum Status {
    Enter,
    Exit,
}

impl Status {
    /// The opposite classification.
    pub open spec fn flipped(self) -> Status {
        match self {
            Status::Enter => Status::Exit,
            Status::Exit => Status::Enter,
        }
    }

    /// Swap `Enter` and `Exit` in place.
    pub fn invert(&mut self)
        ensures
            *final(self) == old(self).flipped(),
    {
        *self = match *self {
            Status::Enter => Status::Exit,
            Status::Exit => Status::Enter,
        };
    }
}

} // verus!
