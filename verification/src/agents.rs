use vstd::prelude::*;

verus! {

/// A reader samples the field at a position with a radius.
#[derive(Debug)]
pub struct Reader {
    pub id: String,
    pub position: (usize, usize),
    pub radius: usize,
}

impl Clone for Reader {
    fn clone(&self) -> (r: Self)
        ensures
            r == *self,
    {
        Reader { id: self.id.clone(), position: (self.position.0, self.position.1), radius: self.radius }
    }
}

} // verus!
