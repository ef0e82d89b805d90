//! Choosing a device memory type.
use vstd::prelude::*;

verus! {

/// No memory type of the device fits the request.
#[derive(Debug, Clone, Copy, PartialEq, Eq, Structural)]
pub enum MemoryError {
    NoSuitableType,
}

/// Memory type `i` (with property flags `flags[i]`) is allowed by the
/// resource's `type_filter` bit mask and has every property in `required`.
pub open spec fn suitable_type(flags: Seq<u32>, type_filter: u32, required: u32, i: int) -> bool {
    &&& 0 <= i < flags.len()
    &&& type_filter & (1u32 << (i as u32)) != 0
    &&& flags[i] & required == required
}

/// The first memory type that suits the request, among the device's memory
/// types given by their property flags (`property_flags[i]` for type `i`).
pub fn find_memory_type(property_flags: &[u32], type_filter: u32, required: u32) -> (r: Result<u32, MemoryError>)
    requires
        property_flags@.len() <= 32,
    ensures
        r is Ok <==> exists|i: int| suitable_type(property_flags@, type_filter, required, i),
        r matches Ok(i) ==> {
            &&& suitable_type(property_flags@, type_filter, required, i as int)
            &&& forall|j: int| 0 <= j < i ==> !suitable_type(property_flags@, type_filter, required, j)
        },
        r matches Err(e) ==> e == MemoryError::NoSuitableType,
{
    let count = property_flags.len();
    let mut i: usize = 0;
    while i < count
        invariant
            count == property_flags@.len(),
            count <= 32,
            i <= count,
            forall|j: int| 0 <= j < i ==> !suitable_type(property_flags@, type_filter, required, j),
        decreases count - i,
    {
        let bit: u32 = 1u32 << (i as u32);
        if type_filter & bit != 0 && property_flags[i] & required == required {
            assert(suitable_type(property_flags@, type_filter, required, i as int));
            return Ok(i as u32);
        }
        i = i + 1;
    }
    Err(MemoryError::NoSuitableType)
}

} // verus!
