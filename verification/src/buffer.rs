use vstd::prelude::*;

use crate::errors::TagError;

verus! {

/// A fixed three-byte output buffer: one digit per tag segment in the
/// no-allocation encoding path.
#[derive(Clone, Copy)]
pub struct TagBuf(pub [u8; 3]);

impl View for TagBuf {
    type V = Seq<u8>;

    open spec fn view(&self) -> Seq<u8> {
        self.0@
    }
}

impl TagBuf {
    /// Creates a new `TagBuf` initialized with zeros.
    pub fn new() -> (r: Self)
        ensures
            r@ == seq![0u8, 0u8, 0u8],
    {
        let r = TagBuf([0; 3]);
        proof {
            assert(r@ =~= seq![0u8, 0u8, 0u8]);
        }
        r
    }

    /// Access the internal buffer.
    pub fn as_mut(&mut self) -> (r: &mut [u8; 3])
        ensures
            *r == old(self).0,
            final(self).0 == *final(r),
    {
        &mut self.0
    }

    /// Access the internal buffer (immutable).
    pub fn as_ref(&self) -> (r: &[u8; 3])
        ensures
            *r == self.0,
    {
        &self.0
    }
}

impl Default for TagBuf {
    fn default() -> (r: Self)
        ensures
            r@ == seq![0u8, 0u8, 0u8],
    {
        TagBuf::new()
    }
}

/// An output sink for the digit characters that the codec produces.
///
/// A sink holds a sequence of bytes and may have a fixed capacity; `add`
/// appends one byte and reports `BufferOverflowError` exactly when the
/// capacity is exhausted.
pub trait BufAdd {
    /// The bytes written to the sink so far.
    spec fn contents(&self) -> Seq<u8>;

    /// How many bytes the sink can hold in all; `None` means it grows
    /// without bound.
    spec fn capacity(&self) -> Option<nat>;

    /// Add character to the buffer and increment index.
    fn add(&mut self, c: u8) -> (r: Result<(), TagError>)
        ensures
            r is Ok <==> (old(self).capacity() is None
                || old(self).contents().len() < old(self).capacity()->Some_0),
            r is Ok ==> final(self).contents() == old(self).contents().push(c),
            r is Err ==> r == Err::<(), TagError>(TagError::BufferOverflowError)
                && final(self).contents() == old(self).contents(),
            final(self).capacity() == old(self).capacity(),
    ;
}

/// The fixed-capacity sink over a `TagBuf`: bytes are written positionally
/// and a fourth byte is refused.
pub struct StrBuf {
    pub offset: usize,
    pub buf: TagBuf,
}

impl StrBuf {
    /// Writes one byte at the current offset and advances it.  A write
    /// past the third byte is refused and leaves offset and buffer
    /// exactly as they were; a successful write changes the addressed
    /// byte alone.
    pub fn write_byte(&mut self, c: u8) -> (r: Result<(), TagError>)
        ensures
            r is Ok <==> old(self).offset < 3,
            r is Ok ==> final(self).offset == old(self).offset + 1 && final(self).buf@ == old(
                self,
            ).buf@.update(old(self).offset as int, c),
            r is Err ==> r == Err::<(), TagError>(TagError::BufferOverflowError) && *final(self)
                == *old(self),
    {
        if self.offset >= 3 {
            return Err(TagError::BufferOverflowError);
        }
        self.buf.0[self.offset] = c;
        self.offset = self.offset + 1;
        Ok(())
    }
}

impl BufAdd for StrBuf {
    open spec fn contents(&self) -> Seq<u8> {
        if self.offset >= 3 {
            self.buf@
        } else {
            self.buf@.take(self.offset as int)
        }
    }

    open spec fn capacity(&self) -> Option<nat> {
        Some(3nat)
    }

    fn add(&mut self, c: u8) -> (r: Result<(), TagError>)
    {
        proof {
            assert(self.buf@.len() == 3);
        }
        let r = self.write_byte(c);
        proof {
            if old(self).offset < 3 {
                assert(self.contents() =~= old(self).contents().push(c));
            }
        }
        r
    }
}

/// The growable sink: collects the digit characters in a `Vec`, never
/// refusing a byte.
pub struct VecBuf {
    pub data: Vec<u8>,
}

impl VecBuf {
    /// Creates an empty growable sink.
    pub fn new() -> (r: Self)
        ensures
            r.contents() == Seq::<u8>::empty(),
    {
        let r = VecBuf { data: Vec::new() };
        proof {
            assert(r.contents() =~= Seq::<u8>::empty());
        }
        r
    }

    /// The bytes collected so far.
    pub fn bytes(&self) -> (r: &Vec<u8>)
        ensures
            r@ == self.contents(),
    {
        &self.data
    }
}

impl BufAdd for VecBuf {
    open spec fn contents(&self) -> Seq<u8> {
        self.data@
    }

    open spec fn capacity(&self) -> Option<nat> {
        None
    }

    fn add(&mut self, c: u8) -> (r: Result<(), TagError>)
    {
        self.data.push(c);
        Ok(())
    }
}

} // verus!
