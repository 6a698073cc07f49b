use vstd::prelude::*;

verus! {

/// A run of bytes with a read cursor: what is left of the input.
pub struct ByteSource {
    /// All the bytes of the input.
    pub data: Vec<u8>,
    /// How many of them have been consumed.
    pub pos: usize,
}

impl ByteSource {
    /// The cursor lies within the data.
    pub open spec fn wf(&self) -> bool {
        self.pos <= self.data@.len()
    }

    /// A source that holds `data`, with nothing consumed.
    pub fn new(data: Vec<u8>) -> (source: ByteSource)
        ensures
            source.wf(),
            source.data@ == data@,
            source.pos == 0,
    {
        ByteSource { data, pos: 0 }
    }

    /// How many bytes have been consumed.
    pub fn position(&self) -> (pos: usize)
        ensures
            pos == self.pos,
    {
        self.pos
    }

    /// Reads exactly `n` bytes. Where fewer are left, gives `None` and
    /// consumes what is left.
    pub fn read_exact(&mut self, n: usize) -> (bytes: Option<Vec<u8>>)
        requires
            old(self).wf(),
        ensures
            final(self).wf(),
            final(self).data@ == old(self).data@,
            match bytes {
                Some(b) => old(self).pos + n <= old(self).data@.len() && final(self).pos == old(
                    self,
                ).pos + n && b@ == old(self).data@.subrange(
                    old(self).pos as int,
                    old(self).pos + n,
                ),
                None => old(self).pos + n > old(self).data@.len() && final(self).pos == old(
                    self,
                ).data@.len(),
            },
    {
        let total: usize = self.data.len();
        if n > total - self.pos {
            self.pos = total;
            None
        } else {
            let start: usize = self.pos;
            let bytes = vstd::slice::slice_to_vec(
                vstd::slice::slice_subrange(self.data.as_slice(), start, start + n),
            );
            self.pos = start + n;
            Some(bytes)
        }
    }
}

} // verus!
