use vstd::prelude::*;

verus! {

/// A sequence of bytes handed out one at a time.
pub trait ByteSource {
    /// The source is in a consistent state.
    spec fn inv(&self) -> bool;

    /// The bytes still to come, in order.
    spec fn pending(&self) -> Seq<u8>;

    /// Hands out the next byte, or `None` when the source is exhausted.
    fn next_byte(&mut self) -> (r: Option<u8>)
        requires
            old(self).inv(),
        ensures
            final(self).inv(),
            old(self).pending().len() == 0 ==> r is None && final(self).pending()
                == old(self).pending(),
            old(self).pending().len() > 0 ==> r == Some(old(self).pending()[0])
                && final(self).pending() == old(self).pending().drop_first(),
    ;
}

/// The bytes of a slice, from first to last.
pub struct SliceSource<'a> {
    bytes: &'a [u8],
    index: usize,
}

impl<'a> SliceSource<'a> {
    pub fn new(bytes: &'a [u8]) -> (r: Self)
        ensures
            r.inv(),
            r.pending() == bytes@,
    {
        let r = SliceSource { bytes, index: 0 };
        assert(r.bytes@.skip(0) =~= bytes@);
        r
    }
}

impl<'a> ByteSource for SliceSource<'a> {
    closed spec fn inv(&self) -> bool {
        self.index <= self.bytes@.len()
    }

    closed spec fn pending(&self) -> Seq<u8> {
        self.bytes@.skip(self.index as int)
    }

    fn next_byte(&mut self) -> (r: Option<u8>) {
        if self.index < self.bytes.len() {
            let b = self.bytes[self.index];
            self.index = self.index + 1;
            assert(self.pending() =~= old(self).pending().drop_first());
            Some(b)
        } else {
            None
        }
    }
}

} // verus!
