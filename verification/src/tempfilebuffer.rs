//! A byte sink between a producer and the output: it holds what is written to it until it
//! is given the output, hands over what it holds, and from then on writes straight through.
//!
//! A writer that processes a chromosome while the one before it is still being written
//! gives each its own buffer, and gives a buffer the output when its turn has come. The
//! bytes of a producer then lie in the output in the order in which they were produced,
//! all of them after what the output held before, whether they were written before the
//! switch or after it.

use vstd::prelude::*;
use crate::layout::append_bytes;

verus! {

/// Where a buffer is in its life.
pub enum BufferState {
    /// It holds what is written to it.
    Buffered { held: Vec<u8> },
    /// It writes to the output, which held `base` bytes when it was given.
    Attached { output: Vec<u8>, base: usize },
    /// It has given the output back, or what it held.
    Closed,
}

/// A sink that is first backed by a store of its own and then by the output.
pub struct TempFileBuffer {
    state: BufferState,
}

impl TempFileBuffer {
    /// The bytes that have been written to the buffer, in their order.
    pub closed spec fn produced(&self) -> Seq<u8> {
        match self.state {
            BufferState::Buffered { held } => held@,
            BufferState::Attached { output, base } => output@.skip(base as int),
            BufferState::Closed => Seq::empty(),
        }
    }

    /// Whether the buffer still holds what is written to it.
    pub closed spec fn buffered(&self) -> bool {
        self.state is Buffered
    }

    /// Whether the buffer writes to the output.
    pub closed spec fn attached(&self) -> bool {
        self.state matches BufferState::Attached { output, base } && base <= output@.len()
    }

    /// What the output held when the buffer was given it.
    pub closed spec fn before(&self) -> Seq<u8> {
        match self.state {
            BufferState::Attached { output, base } => output@.take(base as int),
            _ => Seq::empty(),
        }
    }

    /// A buffer that nothing has been written to.
    pub fn new() -> (buffer: Self)
        ensures
            buffer.buffered(),
            buffer.produced() == Seq::<u8>::empty(),
    {
        TempFileBuffer { state: BufferState::Buffered { held: Vec::new() } }
    }

    /// How many bytes have been written to the buffer.
    pub fn len(&self) -> (len: usize)
        requires
            self.buffered() || self.attached(),
        ensures
            len == self.produced().len(),
    {
        match &self.state {
            BufferState::Buffered { held } => held.len(),
            BufferState::Attached { output, base } => output.len() - *base,
            BufferState::Closed => 0,
        }
    }

    /// Writes `data`: to the store while the buffer holds its bytes, to the output once it
    /// has been given it.
    pub fn write(&mut self, data: &Vec<u8>)
        requires
            old(self).buffered() || old(self).attached(),
        ensures
            final(self).produced() == old(self).produced() + data@,
            final(self).buffered() == old(self).buffered(),
            final(self).attached() == old(self).attached(),
            final(self).before() == old(self).before(),
    {
        let mut state = BufferState::Closed;
        std::mem::swap(&mut self.state, &mut state);
        match state {
            BufferState::Buffered { held } => {
                let mut held = held;
                append_bytes(&mut held, data);
                self.state = BufferState::Buffered { held };
            },
            BufferState::Attached { output, base } => {
                let mut output = output;
                let ghost was = output@;
                append_bytes(&mut output, data);
                assert(output@.skip(base as int) =~= was.skip(base as int) + data@);
                assert(output@.take(base as int) =~= was.take(base as int));
                self.state = BufferState::Attached { output, base };
            },
            BufferState::Closed => {},
        }
    }

    /// Gives the buffer the output: what the buffer holds goes to the end of `output`, and
    /// so does all that is written from now on.
    pub fn switch(&mut self, output: Vec<u8>)
        requires
            old(self).buffered(),
        ensures
            final(self).attached(),
            final(self).before() == output@,
            final(self).produced() == old(self).produced(),
    {
        let mut state = BufferState::Closed;
        std::mem::swap(&mut self.state, &mut state);
        match state {
            BufferState::Buffered { held } => {
                let mut output = output;
                let base = output.len();
                let ghost was = output@;
                append_bytes(&mut output, &held);
                assert(output@.skip(base as int) =~= held@);
                assert(output@.take(base as int) =~= was);
                self.state = BufferState::Attached { output, base };
            },
            _ => {},
        }
    }

    /// Takes the output back once the producer has finished: it holds what it held
    /// before, then all that the producer wrote, in the order in which it wrote it.
    pub fn await_file(self) -> (output: Vec<u8>)
        requires
            self.attached(),
        ensures
            output@ == self.before() + self.produced(),
    {
        match self.state {
            BufferState::Attached { output, base } => {
                assert(output@ =~= output@.take(base as int) + output@.skip(base as int));
                output
            },
            _ => Vec::new(),
        }
    }

    /// Takes what a buffer holds that was never given the output.
    pub fn await_raw(self) -> (held: Vec<u8>)
        requires
            self.buffered(),
        ensures
            held@ == self.produced(),
    {
        match self.state {
            BufferState::Buffered { held } => held,
            _ => Vec::new(),
        }
    }
}

} // verus!
