//! Choices made when the Vulkan instance is created.
use vstd::prelude::*;

verus! {

/// Whether the Khronos validation layer is among the layers the loader offers.
pub fn has_validation_layer(layers: &Vec<String>) -> (b: bool)
    ensures
        b == exists|i: int| 0 <= i < layers@.len() && (#[trigger] layers@[i])@ == "VK_LAYER_KHRONOS_validation"@,
{
    let wanted = String::from_str("VK_LAYER_KHRONOS_validation");
    let mut i: usize = 0;
    while i < layers.len()
        invariant
            i <= layers@.len(),
            wanted@ == "VK_LAYER_KHRONOS_validation"@,
            forall|j: int| 0 <= j < i ==> (#[trigger] layers@[j])@ != "VK_LAYER_KHRONOS_validation"@,
        decreases layers@.len() - i,
    {
        if layers[i] == wanted {
            return true;
        }
        i = i + 1;
    }
    false
}

} // verus!
