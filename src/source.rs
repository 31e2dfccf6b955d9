use vstd::prelude::*;

use vstd::slice::slice_subrange;

verus! {

/// A pull-based byte source: each read hands over the next bytes of what
/// remains, and an empty read means the end of the data.
///
/// A source that does not give its own view of the remaining bytes (one
/// written outside verified code, over a reader that cannot be modelled)
/// keeps the default, of which nothing is known: what the splitter promises
/// of its blocks then holds only as far as its reads behave as stated here.
pub trait ByteSource {
    /// The bytes not yet read.
    closed spec fn remaining(&self) -> Seq<u8> {
        arbitrary()
    }

    /// Reads the next bytes into `buf` from index `from` on and returns how
    /// many. Zero comes exactly when nothing remains; a failed read consumes
    /// nothing.
    fn read_into(&mut self, buf: &mut Vec<u8>, from: usize) -> (r: std::io::Result<usize>)
        requires
            from < old(buf).len(),
        ensures
            final(buf).len() == old(buf).len(),
            final(buf)@.subrange(0, from as int) == old(buf)@.subrange(0, from as int),
            match r {
                Ok(n) => {
                    &&& n <= old(buf).len() - from
                    &&& n <= old(self).remaining().len()
                    &&& (n == 0 <==> old(self).remaining().len() == 0)
                    &&& final(buf)@.subrange(from as int, from + n) == old(self).remaining().take(
                        n as int,
                    )
                    &&& final(self).remaining() == old(self).remaining().skip(n as int)
                },
                Err(_) => final(self).remaining() == old(self).remaining(),
            },
    ;
}

impl<'a> ByteSource for &'a [u8] {
    open spec fn remaining(&self) -> Seq<u8> {
        self@
    }

    /// Copies as many bytes as fit and moves past them.
    fn read_into(&mut self, buf: &mut Vec<u8>, from: usize) -> (r: std::io::Result<usize>) {
        let room = buf.len() - from;
        let n: usize = if self.len() < room {
            self.len()
        } else {
            room
        };
        let mut i: usize = 0;
        while i < n
            invariant
                i <= n,
                n <= self@.len(),
                from + n <= buf.len(),
                self@ == old(self)@,
                buf.len() == old(buf).len(),
                buf@.subrange(0, from as int) == old(buf)@.subrange(0, from as int),
                forall|j: int| 0 <= j < i ==> buf@[from + j] == self@[j],
            decreases n - i,
        {
            buf[from + i] = self[i];
            i = i + 1;
        }
        assert(buf@.subrange(from as int, from + n) =~= self@.take(n as int));
        let len = self.len();
        *self = slice_subrange(*self, n, len);
        Ok(n)
    }
}

} // verus!
