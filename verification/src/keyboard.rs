//! The keyboard path: the IRQ handler pushes raw scancodes into a
//! bounded ring, and the cooperative consumer drains them in order,
//! decoding through the pc-keyboard crate.

use vstd::prelude::*;

verus! {

use crate::queues::{byte_queue_view, byte_queue_cap, new_byte_queue, byte_queue_push, byte_queue_pop};

/// Capacity of the keyboard scancode ring.
pub const SCANCODE_CAPACITY: usize = 100;

#[verifier::external_type_specification]
#[verifier::external_body]
pub struct ExKeyEvent(pc_keyboard::KeyEvent);

/// The stateful scancode decoder.  Verus refuses the declaration of
/// `pc_keyboard::Keyboard` itself — its generic parameters carry outside
/// trait bounds — so the decoder is held opaquely in this struct.
#[verifier::external_body]
pub struct KeyboardDecoder {
    inner: pc_keyboard::Keyboard<pc_keyboard::layouts::Us104Key, pc_keyboard::ScancodeSet1>,
}

/// A key the decoder produced.
#[derive(Clone, Copy, Debug, PartialEq, Eq, Structural)]
pub enum Key {
    /// A printable character.
    Unicode(char),
    /// A key without a character, as its raw key-code number.
    Raw(u8),
}

/// Relies on pc_keyboard::Keyboard::new: a fresh US-layout set-1 decoder
/// that ignores control characters.
#[verifier::external_body]
pub fn new_us_keyboard() -> (kb: KeyboardDecoder) {
    KeyboardDecoder {
        inner: pc_keyboard::Keyboard::new(
            pc_keyboard::layouts::Us104Key,
            pc_keyboard::ScancodeSet1,
            pc_keyboard::HandleControl::Ignore,
        ),
    }
}

/// Relies on pc_keyboard::Keyboard::add_byte: feeds one scancode byte to
/// the decoder; a key event comes out when a sequence completes.  The
/// result depends on the decoder's internal state, so nothing more is
/// promised of it.
#[verifier::external_body]
pub fn keyboard_add_byte(kb: &mut KeyboardDecoder, code: u8) -> (r: Option<
    pc_keyboard::KeyEvent,
>) {
    match kb.inner.add_byte(code) {
        Ok(Some(ev)) => Some(ev),
        Ok(None) => None,
        Err(_) => None,
    }
}

/// Relies on pc_keyboard::Keyboard::process_keyevent: turns a key event
/// into a decoded key, honoring the modifier state.  The result depends
/// on the decoder's internal state, so nothing more is promised of it.
#[verifier::external_body]
pub fn keyboard_process_keyevent(kb: &mut KeyboardDecoder, ev: pc_keyboard::KeyEvent) -> (r:
    Option<Key>) {
    match kb.inner.process_keyevent(ev) {
        Some(pc_keyboard::DecodedKey::Unicode(c)) => Some(Key::Unicode(c)),
        Some(pc_keyboard::DecodedKey::RawKey(k)) => Some(Key::Raw(k as u8)),
        None => None,
    }
}

/// The keyboard scancode ring with its overflow log.
pub struct ScancodeStream {
    /// The bounded ring the IRQ handler pushes into.
    pub queue: crossbeam_queue::ArrayQueue<u8>,
    /// How many scancodes were dropped on a full ring.
    pub dropped: u64,
}

impl ScancodeStream {
    /// The scancodes waiting to be consumed, oldest first.
    pub open spec fn scancodes(&self) -> Seq<u8> {
        byte_queue_view(self.queue)
    }

    /// The ring's capacity never changes.
    pub open spec fn wf(&self) -> bool {
        byte_queue_cap(self.queue) == SCANCODE_CAPACITY
    }

    /// An empty stream over a ring of one hundred scancodes.
    pub fn new() -> (r: ScancodeStream)
        ensures
            r.wf(),
            r.scancodes() == Seq::<u8>::empty(),
            r.dropped == 0,
    {
        ScancodeStream { queue: new_byte_queue(SCANCODE_CAPACITY), dropped: 0 }
    }

    /// Takes the oldest scancode, or reports an empty ring.
    pub fn poll_next(&mut self) -> (r: Option<u8>)
        requires
            old(self).wf(),
        ensures
            final(self).wf(),
            final(self).dropped == old(self).dropped,
            old(self).scancodes().len() > 0 ==> r == Some(old(self).scancodes()[0])
                && final(self).scancodes() == old(self).scancodes().drop_first(),
            old(self).scancodes().len() == 0 ==> r is None && final(self).scancodes() == old(
                self,
            ).scancodes(),
    {
        byte_queue_pop(&mut self.queue)
    }
}

/// Called by the keyboard interrupt: queues a scancode for the consumer
/// and reports whether the consumer must be woken.  A full ring drops the
/// scancode and logs one warning.
pub fn add_scancode(stream: &mut ScancodeStream, scancode: u8) -> (woke: bool)
    requires
        old(stream).wf(),
        old(stream).dropped < u64::MAX,
    ensures
        final(stream).wf(),
        old(stream).scancodes().len() < SCANCODE_CAPACITY ==> woke && final(stream).scancodes()
            == old(stream).scancodes().push(scancode) && final(stream).dropped == old(
            stream,
        ).dropped,
        old(stream).scancodes().len() >= SCANCODE_CAPACITY ==> !woke && final(stream).scancodes()
            == old(stream).scancodes() && final(stream).dropped == old(stream).dropped + 1,
{
    if byte_queue_push(&mut stream.queue, scancode) {
        true
    } else {
        stream.dropped = stream.dropped + 1;
        false
    }
}

/// One step of the keyboard consumer: takes the oldest scancode, decodes
/// it, and prints the character it yields, if any.  Reports whether a
/// scancode was consumed; with an empty ring the poll would suspend.
pub fn print_keypresses(
    stream: &mut ScancodeStream,
    decoder: &mut KeyboardDecoder,
    writer: &mut crate::printer::Writer,
) -> (progress: bool)
    requires
        old(stream).wf(),
        old(writer).wf(),
    ensures
        final(stream).wf(),
        final(writer).wf(),
        // the consumer always takes the oldest scancode first
        old(stream).scancodes().len() > 0 ==> progress && final(stream).scancodes() == old(
            stream,
        ).scancodes().drop_first(),
        old(stream).scancodes().len() == 0 ==> !progress && final(stream).scancodes() == old(
            stream,
        ).scancodes() && final(writer).written == old(writer).written,
        // whatever the decoder yields, at most one character is printed
        final(writer).written@ == old(writer).written@ || (exists|c: char|
            final(writer).written@ == old(writer).written@.push(c)),
{
    let code = match stream.poll_next() {
        Some(code) => code,
        None => {
            return false;
        },
    };
    match keyboard_add_byte(decoder, code) {
        Some(ev) => {
            match keyboard_process_keyevent(decoder, ev) {
                Some(Key::Unicode(c)) => {
                    writer.write_char(c);
                },
                Some(Key::Raw(_)) => {},
                None => {},
            }
        },
        None => {},
    }
    true
}

/// One enqueue as the interrupt handler performs it: append when there is
/// room, drop otherwise.
pub open spec fn spec_enqueue(q: Seq<u8>, x: u8, cap: int) -> Seq<u8> {
    if q.len() < cap {
        q.push(x)
    } else {
        q
    }
}

/// A burst of enqueues, in interrupt order.
pub open spec fn spec_enqueue_all(q: Seq<u8>, xs: Seq<u8>, cap: int) -> Seq<u8>
    decreases xs.len(),
{
    if xs.len() == 0 {
        q
    } else {
        spec_enqueue_all(spec_enqueue(q, xs[0], cap), xs.drop_first(), cap)
    }
}

/// Async liveness: scancodes that fit in the ring all arrive, in
/// interrupt order — a burst of `K` enqueues onto a ring with room for
/// them leaves exactly those `K` scancodes queued, oldest first, so the
/// consumer pops exactly them in order.
pub proof fn lemma_async_liveness(q: Seq<u8>, xs: Seq<u8>, cap: int)
    requires
        q.len() + xs.len() <= cap,
    ensures
        spec_enqueue_all(q, xs, cap) == q + xs,
    decreases xs.len(),
{
    if xs.len() == 0 {
        assert(q + xs =~= q);
    } else {
        lemma_async_liveness(q.push(xs[0]), xs.drop_first(), cap);
        assert(q.push(xs[0]) + xs.drop_first() =~= q + xs);
    }
}

/// Overflow: an enqueue onto a full ring changes nothing but the log.
pub proof fn lemma_enqueue_overflow(q: Seq<u8>, x: u8, cap: int)
    requires
        q.len() >= cap,
    ensures
        spec_enqueue(q, x, cap) == q,
{
}

} // verus!
