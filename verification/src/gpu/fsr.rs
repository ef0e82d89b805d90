//! Push constants of the FSR upscaling passes. The constants are computed in
//! floating point by the caller and stored here as raw 32-bit patterns.
use vstd::prelude::*;

verus! {

/// Push constants of the EASU (edge-adaptive upscale) pass.
#[derive(Debug, Clone, Copy, PartialEq, Eq)]
pub struct EasuPC {
    pub con0: [u32; 4],
    pub con1: [u32; 4],
    pub con2: [u32; 4],
    pub con3: [u32; 4],
}

/// Push constants of the RCAS (sharpening) pass.
#[derive(Debug, Clone, Copy, PartialEq, Eq)]
pub struct RcasPC {
    pub con0: [u32; 4],
}

/// The words of an EASU push-constant block, in memory order.
pub open spec fn easu_words(pc: EasuPC) -> Seq<u32> {
    pc.con0@ + pc.con1@ + pc.con2@ + pc.con3@
}

impl EasuPC {
    /// The sixteen words of the block, in the order the shader reads them.
    pub fn words(&self) -> (w: Vec<u32>)
        ensures
            w@ == easu_words(*self),
    {
        let mut w: Vec<u32> = Vec::new();
        append_vec4(&mut w, &self.con0);
        append_vec4(&mut w, &self.con1);
        append_vec4(&mut w, &self.con2);
        append_vec4(&mut w, &self.con3);
        w
    }
}

impl RcasPC {
    /// The four words of the block, in the order the shader reads them.
    pub fn words(&self) -> (w: Vec<u32>)
        ensures
            w@ == self.con0@,
    {
        let mut w: Vec<u32> = Vec::new();
        append_vec4(&mut w, &self.con0);
        w
    }
}

fn append_vec4(w: &mut Vec<u32>, v: &[u32; 4])
    ensures
        final(w)@ == old(w)@ + v@,
{
    let ghost w0 = w@;
    let mut i: usize = 0;
    while i < 4
        invariant
            i <= 4,
            w@ == w0 + v@.subrange(0, i as int),
        decreases 4 - i,
    {
        w.push(v[i]);
        proof {
            assert(v@.subrange(0, i + 1) == v@.subrange(0, i as int).push(v@[i as int]));
        }
        i = i + 1;
    }
    proof {
        assert(v@.subrange(0, 4) == v@);
    }
}

} // verus!
