use vstd::prelude::*;

use super::Section;

verus! {

/// Section 3: the type index of each of the module's own functions.
pub struct FunctionSection {
    pub types: Vec<usize>,
}

impl Section for FunctionSection {
    type Contents = Vec<usize>;

    open spec fn spec_id() -> u8 {
        3
    }

    open spec fn spec_contents(&self) -> Vec<usize> {
        self.types
    }

    fn id() -> (r: u8) {
        3
    }

    fn contents(&self) -> (r: &Vec<usize>) {
        &self.types
    }
}

impl Default for FunctionSection {
    fn default() -> (r: Self)
        ensures
            r.types@.len() == 0,
    {
        Self { types: Vec::new() }
    }
}

impl FunctionSection {
    /// Declares a function of the given type, and returns its index among the
    /// module's own functions.
    pub fn add_function(&mut self, type_index: usize) -> (r: usize)
        ensures
            final(self).types@ == old(self).types@.push(type_index),
            r == old(self).types@.len(),
    {
        self.types.push(type_index);
        self.types.len() - 1
    }
}

} // verus!
