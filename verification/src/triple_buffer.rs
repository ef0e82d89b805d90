//! Triple buffer used to hand frames from the game thread to the render thread.
//!
//! Three slots take three roles: WRITE (filled by the producer), READY (the last
//! published frame) and RENDER (read by the consumer). The WRITE and READY slot
//! indices and the NEW_FRAME flag live packed in one state byte:
//!
//! ```text
//! bit 7   : NEW_FRAME (a published frame that the consumer has not taken yet)
//! bits 4-5: READY index
//! bits 2-3: WRITE index
//! bits 0-1: unused
//! ```
//!
//! The RENDER index is kept by the consumer and handed to [`TripleBuffer::consume`].
use vstd::prelude::*;

verus! {

pub const NEW_FRAME_BIT: u8 = 0b1000_0000;

pub const READY_SHIFT: u8 = 4;

pub const WRITE_SHIFT: u8 = 2;

pub const IDX_MASK: u8 = 0b11;

/// Initial state: write = 0, ready = 1, no new frame (render starts at 2).
pub const INITIAL_STATE: u8 = 0b0001_0000;

/// Index of the WRITE slot encoded in a state byte.
pub open spec fn state_write(state: u8) -> u8 {
    (state >> 2u8) & 3u8
}

/// Index of the READY slot encoded in a state byte.
pub open spec fn state_ready(state: u8) -> u8 {
    (state >> 4u8) & 3u8
}

/// Whether a state byte carries the NEW_FRAME flag.
pub open spec fn state_new_frame(state: u8) -> bool {
    state & 0x80u8 != 0u8
}

/// The abstract state of a triple buffer: its three slots, the WRITE and
/// READY slot indices and the NEW_FRAME flag.
pub struct BufferModel<T> {
    pub slots: Seq<T>,
    pub write: int,
    pub ready: int,
    pub new_frame: bool,
}

/// A consumer's RENDER index is usable with a buffer state when it names a slot
/// that is neither the WRITE nor the READY slot.
pub open spec fn render_index_ok<T>(m: BufferModel<T>, render: int) -> bool {
    0 <= render < 3 && render != m.write && render != m.ready
}

/// The slot roles are well formed: three slots, WRITE and READY in range and distinct.
pub open spec fn model_wf<T>(m: BufferModel<T>) -> bool {
    &&& m.slots.len() == 3
    &&& 0 <= m.write < 3
    &&& 0 <= m.ready < 3
    &&& m.write != m.ready
}

/// The state after the producer stores `value` into its WRITE slot.
pub open spec fn write_model<T>(m: BufferModel<T>, value: T) -> BufferModel<T> {
    BufferModel { slots: m.slots.update(m.write, value), ..m }
}

/// The state after `publish`: WRITE and READY swap, NEW_FRAME is raised.
pub open spec fn publish_model<T>(m: BufferModel<T>) -> BufferModel<T> {
    BufferModel { slots: m.slots, write: m.ready, ready: m.write, new_frame: true }
}

/// The result of `consume` with RENDER index `render`: whether a new frame was
/// taken, the new RENDER index and the new state.
pub open spec fn consume_model<T>(m: BufferModel<T>, render: int) -> (bool, int, BufferModel<T>) {
    if !m.new_frame {
        (false, render, m)
    } else {
        (true, m.ready, BufferModel { slots: m.slots, write: m.write, ready: render, new_frame: false })
    }
}

/// The three slot roles never alias: if the consumer's RENDER index is distinct
/// from WRITE and READY, it stays distinct from them across `publish` and
/// across `consume` (with the RENDER index that `consume` hands back).
pub proof fn law_roles_never_alias<T>(m: BufferModel<T>, render: int)
    requires
        model_wf(m),
        render_index_ok(m, render),
    ensures
        model_wf(publish_model(m)),
        render_index_ok(publish_model(m), render),
        model_wf(consume_model(m, render).2),
        render_index_ok(consume_model(m, render).2, consume_model(m, render).1),
{
}

/// The producer never disturbs the frames that are READY or being rendered:
/// writing into the WRITE slot leaves the READY and RENDER slots unchanged.
pub proof fn law_write_keeps_ready_and_render<T>(m: BufferModel<T>, render: int, value: T)
    requires
        model_wf(m),
        render_index_ok(m, render),
    ensures
        write_model(m, value).slots[m.ready] == m.slots[m.ready],
        write_model(m, value).slots[render] == m.slots[render],
        write_model(m, value).slots[m.write] == value,
{
}

/// A value written and published is what the consumer takes next.
pub proof fn law_publish_then_consume_delivers<T>(m: BufferModel<T>, render: int, value: T)
    requires
        model_wf(m),
        render_index_ok(m, render),
    ensures
        ({
            let (taken, r2, m2) = consume_model(publish_model(write_model(m, value)), render);
            taken && render_index_ok(m2, r2) && m2.slots[r2] == value
        }),
{
}

/// With two publishes before one consume the consumer gets the latest value,
/// and a second consume finds nothing new and keeps the RENDER index.
pub proof fn law_consumer_gets_latest<T>(m: BufferModel<T>, render: int, first: T, second: T)
    requires
        model_wf(m),
        render_index_ok(m, render),
    ensures
        ({
            let m1 = publish_model(write_model(m, first));
            let m2 = publish_model(write_model(m1, second));
            let (taken, r3, m3) = consume_model(m2, render);
            let (again, r4, m4) = consume_model(m3, r3);
            &&& taken
            &&& m3.slots[r3] == second
            &&& !again
            &&& r4 == r3
            &&& m4 == m3
        }),
{
}

/// Without a publish since the last consume, `consume` takes nothing and
/// changes neither the buffer nor the RENDER index.
pub proof fn law_consume_without_publish_is_noop<T>(m: BufferModel<T>, render: int)
    requires
        !m.new_frame,
    ensures
        consume_model(m, render) == (false, render, m),
{
}

/// Writing into the WRITE slot never raises NEW_FRAME: only `publish` makes a
/// frame available to the consumer.
pub proof fn law_write_alone_publishes_nothing<T>(m: BufferModel<T>, render: int, value: T)
    requires
        model_wf(m),
        !m.new_frame,
    ensures
        !consume_model(write_model(m, value), render).0,
{
}

/// Triple buffer: the producer fills the WRITE slot and publishes it, the
/// consumer takes the most recently published frame. Every change of the
/// state byte is given by [`published_state`] or [`consumed_state`], so a
/// caller sharing the byte between threads can install it with compare-and-swap.
pub struct TripleBuffer<T> {
    slots: Vec<T>,
    /// Packed state: NEW_FRAME | READY (2 bits) | WRITE (2 bits) | 00.
    state: u8,
}

proof fn lemma_initial_state()
    ensures
        state_write(0b0001_0000u8) == 0,
        state_ready(0b0001_0000u8) == 1,
        !state_new_frame(0b0001_0000u8),
{
    assert((0b0001_0000u8 >> 2u8) & 3u8 == 0u8) by (bit_vector);
    assert((0b0001_0000u8 >> 4u8) & 3u8 == 1u8) by (bit_vector);
    assert(0b0001_0000u8 & 0x80u8 == 0u8) by (bit_vector);
}

proof fn lemma_state_fields_small(s: u8)
    ensures
        state_write(s) < 4,
        state_ready(s) < 4,
{
    assert((s >> 2u8) & 3u8 < 4u8) by (bit_vector);
    assert((s >> 4u8) & 3u8 < 4u8) by (bit_vector);
}

proof fn lemma_publish_state(s: u8, w: u8, r: u8)
    requires
        w < 4,
        r < 4,
    ensures
        state_write((0x80u8 | (w << 4u8)) | (r << 2u8)) == r,
        state_ready((0x80u8 | (w << 4u8)) | (r << 2u8)) == w,
        state_new_frame((0x80u8 | (w << 4u8)) | (r << 2u8)),
{
    assert(w < 4u8 && r < 4u8 ==> (((0x80u8 | (w << 4u8)) | (r << 2u8)) >> 2u8) & 3u8 == r)
        by (bit_vector);
    assert(w < 4u8 && r < 4u8 ==> (((0x80u8 | (w << 4u8)) | (r << 2u8)) >> 4u8) & 3u8 == w)
        by (bit_vector);
    assert(((0x80u8 | (w << 4u8)) | (r << 2u8)) & 0x80u8 != 0u8) by (bit_vector);
}

proof fn lemma_consume_state(s: u8, render: u8)
    requires
        render < 4,
    ensures
        state_write(((s & !0x80u8) & !(3u8 << 4u8)) | (render << 4u8)) == state_write(s),
        state_ready(((s & !0x80u8) & !(3u8 << 4u8)) | (render << 4u8)) == render,
        !state_new_frame(((s & !0x80u8) & !(3u8 << 4u8)) | (render << 4u8)),
{
    assert((((((s & !0x80u8) & !(3u8 << 4u8)) | (render << 4u8)) >> 2u8) & 3u8) == ((s >> 2u8)
        & 3u8)) by (bit_vector);
    assert(render < 4u8 ==> (((((s & !0x80u8) & !(3u8 << 4u8)) | (render << 4u8)) >> 4u8) & 3u8)
        == render) by (bit_vector);
    assert(render < 4u8 ==> (((s & !0x80u8) & !(3u8 << 4u8)) | (render << 4u8)) & 0x80u8 == 0u8)
        by (bit_vector);
}

/// The state byte after a publish from `state`: WRITE and READY swap and
/// NEW_FRAME is raised. A producer sharing the byte atomically installs this
/// value with a compare-and-swap.
pub fn published_state(state: u8) -> (s: u8)
    ensures
        state_write(s) == state_ready(state),
        state_ready(s) == state_write(state),
        state_new_frame(s),
{
    let write = (state >> WRITE_SHIFT) & IDX_MASK;
    let ready = (state >> READY_SHIFT) & IDX_MASK;
    proof {
        lemma_state_fields_small(state);
        lemma_publish_state(state, write, ready);
    }
    // The former WRITE slot becomes READY, the former READY becomes WRITE.
    NEW_FRAME_BIT | (write << READY_SHIFT) | (ready << WRITE_SHIFT)
}

/// A consume from `state` by a consumer holding RENDER index `render_idx`:
/// `None` when no new frame is published; otherwise the state byte with READY
/// set to the consumer's slot and NEW_FRAME cleared, and the consumer's new
/// RENDER index, the former READY slot.
pub fn consumed_state(state: u8, render_idx: usize) -> (r: Option<(u8, usize)>)
    requires
        render_idx < 4,
    ensures
        r is None <==> !state_new_frame(state),
        r matches Some((s, i)) ==> {
            &&& state_write(s) == state_write(state)
            &&& state_ready(s) == render_idx
            &&& !state_new_frame(s)
            &&& i == state_ready(state)
        },
{
    if state & NEW_FRAME_BIT == 0 {
        return None;
    }
    let ready = ((state >> READY_SHIFT) & IDX_MASK) as usize;
    proof {
        lemma_state_fields_small(state);
        lemma_consume_state(state, render_idx as u8);
    }
    let new_state = (state & !NEW_FRAME_BIT) & !(IDX_MASK << READY_SHIFT) | ((render_idx as u8) << READY_SHIFT);
    Some((new_state, ready))
}

/// The WRITE index encoded in a state byte.
pub fn write_index_of(state: u8) -> (i: usize)
    ensures
        i == state_write(state),
        i < 4,
{
    proof {
        lemma_state_fields_small(state);
    }
    ((state >> WRITE_SHIFT) & IDX_MASK) as usize
}

impl<T> TripleBuffer<T> {
    /// The abstract state of the buffer.
    pub closed spec fn model(&self) -> BufferModel<T> {
        BufferModel {
            slots: self.slots@,
            write: state_write(self.state) as int,
            ready: state_ready(self.state) as int,
            new_frame: state_new_frame(self.state),
        }
    }

    /// Well-formedness: three slots, WRITE and READY indices valid and distinct.
    pub open spec fn wf(&self) -> bool {
        model_wf(self.model())
    }

    /// Create a buffer whose three slots hold `a`, `b` and `c`.
    pub fn new_with(a: T, b: T, c: T) -> (buf: Self)
        ensures
            buf.wf(),
            buf.model().slots == seq![a, b, c],
            buf.model().write == 0,
            buf.model().ready == 1,
            !buf.model().new_frame,
    {
        let mut slots: Vec<T> = Vec::new();
        slots.push(a);
        slots.push(b);
        slots.push(c);
        proof {
            lemma_initial_state();
        }
        TripleBuffer { slots, state: INITIAL_STATE }
    }

    /// Mutable access to the WRITE slot (producer side). The reference is
    /// meant to be used before the next [`TripleBuffer::publish`].
    pub fn write_slot(&mut self) -> (slot: &mut T)
        requires
            old(self).wf(),
        ensures
            *slot == old(self).model().slots[old(self).model().write],
            final(self).model() == write_model(old(self).model(), *final(slot)),
            final(self).wf(),
    {
        let state = self.state;
        let idx = ((state >> WRITE_SHIFT) & IDX_MASK) as usize;
        &mut self.slots[idx]
    }

    /// Publish the written frame: swap WRITE and READY and raise NEW_FRAME.
    pub fn publish(&mut self)
        requires
            old(self).wf(),
        ensures
            final(self).wf(),
            final(self).model() == publish_model(old(self).model()),
    {
        self.state = published_state(self.state);
    }

    /// Try to take the freshest frame: if one was published since the last
    /// successful call, swap READY with the consumer's RENDER slot, clear
    /// NEW_FRAME and return `true`; otherwise change nothing and return `false`.
    pub fn consume(&mut self, render_idx: &mut usize) -> (taken: bool)
        requires
            old(self).wf(),
            render_index_ok(old(self).model(), *old(render_idx) as int),
        ensures
            final(self).wf(),
            render_index_ok(final(self).model(), *final(render_idx) as int),
            (taken, *final(render_idx) as int, final(self).model()) == consume_model(
                old(self).model(),
                *old(render_idx) as int,
            ),
    {
        match consumed_state(self.state, *render_idx) {
            None => false,
            Some((new_state, ready)) => {
                self.state = new_state;
                *render_idx = ready;
                true
            },
        }
    }

    /// Index of the WRITE slot.
    pub fn write_index(&self) -> (i: usize)
        ensures
            i == self.model().write,
    {
        ((self.state >> WRITE_SHIFT) & IDX_MASK) as usize
    }

    /// Index of the READY slot.
    pub fn ready_index(&self) -> (i: usize)
        ensures
            i == self.model().ready,
    {
        ((self.state >> READY_SHIFT) & IDX_MASK) as usize
    }

    /// Whether a published frame waits for the consumer.
    pub fn has_new_frame(&self) -> (b: bool)
        ensures
            b == self.model().new_frame,
    {
        self.state & NEW_FRAME_BIT != 0
    }

    /// Shared access to the slot that the consumer renders from.
    pub fn render_slot(&self, render_idx: usize) -> (slot: &T)
        requires
            self.wf(),
            render_idx < 3,
        ensures
            *slot == self.model().slots[render_idx as int],
    {
        &self.slots[render_idx]
    }
}

impl<T: Default> TripleBuffer<T> {
    /// Create a buffer whose three slots hold default values.
    pub fn new() -> (buf: Self)
        ensures
            buf.wf(),
            forall|i: int| 0 <= i < 3 ==> call_ensures(T::default, (), #[trigger] buf.model().slots[i]),
            buf.model().write == 0,
            buf.model().ready == 1,
            !buf.model().new_frame,
    {
        let a = T::default();
        let b = T::default();
        let c = T::default();
        Self::new_with(a, b, c)
    }
}

} // verus!
