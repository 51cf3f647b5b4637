use crate::decode::NEWLINE;
use vstd::prelude::*;
use vstd::utf8::{
    is_char_boundary, is_char_boundary_iff_not_is_continuation_byte, is_continuation_byte,
    valid_utf8, valid_utf8_split,
};

verus! {

pub open spec fn has_newline(s: Seq<u8>) -> bool {
    exists|j: int| 0 <= j < s.len() && s[j] == NEWLINE
}

/// In valid UTF-8, the position right after a newline byte starts a
/// character, and both sides of it are valid UTF-8 again.
pub proof fn lemma_boundary_after_newline(all: Seq<u8>, p: int)
    requires
        valid_utf8(all),
        0 < p <= all.len(),
        all[p - 1] == NEWLINE,
    ensures
        is_char_boundary(all, p),
        valid_utf8(all.subrange(0, p)),
        valid_utf8(all.subrange(p, all.len() as int)),
{
    is_char_boundary_iff_not_is_continuation_byte(all, p - 1);
    assert(!is_continuation_byte(all[p - 1]));
    valid_utf8_split(all, p - 1);
    let t = all.subrange(p - 1, all.len() as int);
    assert(t[0] == NEWLINE);
    assert(t.subrange(1, t.len() as int) =~= all.subrange(p, all.len() as int));
    if p < all.len() {
        let u = all.subrange(p, all.len() as int);
        assert(valid_utf8(u));
        assert(u[0] == all[p]);
        assert(!is_continuation_byte(u[0]));
        is_char_boundary_iff_not_is_continuation_byte(all, p);
    } else {
        vstd::utf8::is_char_boundary_start_end_of_seq(all);
        assert(all.subrange(p, all.len() as int) =~= Seq::<u8>::empty());
    }
    valid_utf8_split(all, p);
}

/// Splits a byte stream, handed over in arbitrary pieces, into batches of
/// whole lines. Between pieces it keeps the bytes after the last newline.
pub struct ChunkReader {
    remainder: Vec<u8>,
}

impl View for ChunkReader {
    type V = Seq<u8>;

    /// The bytes received and not yet handed out in a batch.
    closed spec fn view(&self) -> Seq<u8> {
        self.remainder@
    }
}

impl ChunkReader {
    /// A reader that holds nothing yet.
    pub fn new() -> (r: ChunkReader)
        ensures
            r@ == Seq::<u8>::empty(),
    {
        ChunkReader { remainder: Vec::new() }
    }

    /// Takes the next piece of the stream. Where the held bytes and the
    /// piece together contain a newline, hands out everything up to and
    /// including the last one as a batch and keeps the rest. A batch thus
    /// ends on a newline byte, which UTF-8 never uses inside a multi-byte
    /// character: a character is never cut between a batch and what follows,
    /// and valid UTF-8 stays valid on both sides.
    pub fn feed(&mut self, fresh: &[u8]) -> (r: Option<Vec<u8>>)
        ensures
            match r {
                Some(b) => {
                    &&& b@ + final(self)@ == old(self)@ + fresh@
                    &&& b@.len() > 0
                    &&& b@.last() == NEWLINE
                    &&& !has_newline(final(self)@)
                    &&& valid_utf8(old(self)@ + fresh@) ==> {
                        &&& is_char_boundary(old(self)@ + fresh@, b@.len() as int)
                        &&& valid_utf8(b@)
                        &&& valid_utf8(final(self)@)
                    }
                },
                None => {
                    &&& final(self)@ == old(self)@ + fresh@
                    &&& !has_newline(final(self)@)
                },
            },
    {
        let ghost before = self.remainder@;
        let mut buf = Vec::new();
        buf.append(&mut self.remainder);
        let mut i: usize = 0;
        while i < fresh.len()
            invariant
                i <= fresh@.len(),
                buf@ == before + fresh@.subrange(0, i as int),
            decreases fresh@.len() - i,
        {
            buf.push(fresh[i]);
            i = i + 1;
            assert(buf@ =~= before + fresh@.subrange(0, i as int));
        }
        assert(fresh@.subrange(0, fresh@.len() as int) =~= fresh@);
        let mut p: usize = buf.len();
        while p > 0 && buf[p - 1] != NEWLINE
            invariant
                p <= buf@.len(),
                forall|j: int| p <= j < buf@.len() ==> buf@[j] != NEWLINE,
            decreases p,
        {
            p = p - 1;
        }
        if p == 0 {
            self.remainder = buf;
            None
        } else {
            let ghost all = buf@;
            proof {
                if valid_utf8(all) {
                    lemma_boundary_after_newline(all, p as int);
                }
            }
            let rest = buf.split_off(p);
            self.remainder = rest;
            assert(buf@ + rest@ =~= all);
            assert forall|j: int| 0 <= j < rest@.len() implies rest@[j] != NEWLINE by {
                assert(rest@[j] == all[p + j]);
            }
            Some(buf)
        }
    }

    /// Ends the stream: hands out the held bytes, the last line of a stream
    /// that does not end with a newline, if there are any.
    pub fn finish(&mut self) -> (r: Option<Vec<u8>>)
        ensures
            final(self)@ == Seq::<u8>::empty(),
            old(self)@.len() == 0 ==> r is None,
            old(self)@.len() > 0 ==> r is Some && r.unwrap()@ == old(self)@,
    {
        let mut rest = Vec::new();
        rest.append(&mut self.remainder);
        if rest.len() == 0 {
            None
        } else {
            Some(rest)
        }
    }
}

} // verus!
