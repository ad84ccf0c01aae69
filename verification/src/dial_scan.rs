//! Looking traditions up by name along a dial dimension.

use vstd::prelude::*;
use vstd::string::StringExecFns;

verus! {

/// The position of the first name equal to `name`, if any.
pub fn first_index_of(names: &Vec<String>, name: &str) -> (r: Option<usize>)
    ensures
        match r {
            Some(i) => i < names@.len() && names@[i as int]@ == name@ && forall|k: int|
                0 <= k < i ==> (#[trigger] names@[k])@ != name@,
            None => forall|k: int| 0 <= k < names@.len() ==> (#[trigger] names@[k])@ != name@,
        },
{
    let target = String::from_str(name);
    for i in 0..names.len()
        invariant
            target@ == name@,
            forall|k: int| 0 <= k < i ==> (#[trigger] names@[k])@ != name@,
    {
        if names[i] == target {
            return Some(i);
        }
    }
    None
}

} // verus!
