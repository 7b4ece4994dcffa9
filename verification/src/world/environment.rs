//! The static, read-mostly part of the world: immovable objects.

use vstd::prelude::*;

use crate::vec2::Vec2;

verus! {

/// One immovable rectangle of the environment.
#[derive(Clone, Copy, Debug, PartialEq, Eq, Structural)]
pub struct Object {
    pub pos: Vec2,
    pub size: Vec2,
}

/// The entire static environment.
#[derive(Debug, PartialEq)]
pub struct Environment {
    pub objects: Vec<Object>,
}

impl Environment {
    /// An environment with no objects.
    pub fn new() -> (e: Environment)
        ensures
            e.objects@ =~= Seq::<Object>::empty(),
    {
        Environment { objects: Vec::new() }
    }
}

impl Clone for Environment {
    fn clone(&self) -> (e: Environment)
        ensures
            e.objects@ == self.objects@,
    {
        let mut objects: Vec<Object> = Vec::new();
        let mut i: usize = 0;
        while i < self.objects.len()
            invariant
                i <= self.objects@.len(),
                objects@ =~= self.objects@.subrange(0, i as int),
            decreases self.objects@.len() - i,
        {
            objects.push(self.objects[i]);
            i = i + 1;
        }
        proof {
            assert(objects@ =~= self.objects@);
        }
        Environment { objects }
    }
}

} // verus!
