use vstd::prelude::*;

use crate::Value;

verus! {

impl Value for String {
    fn clone_value(&self) -> (r: Self) {
        self.clone()
    }
}

} // verus!
