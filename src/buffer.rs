//! The executable ring buffer.

use vstd::prelude::*;
use vstd::utf8::{decode_utf8, valid_utf8};
use vstd::string::StringSliceAdditionalSpecFns;
use vstd::arithmetic::div_mod::lemma_small_mod;
use crate::model::{RingState, empty_state, is_filled, lemma_read_step, occupied};

verus! {

/// The error of a write that finds its next slot occupied.
#[derive(Debug, PartialEq, Eq, Structural)]
pub struct NoSpaceLeft;

impl NoSpaceLeft {
    /// The message that describes this error.
    pub fn message(&self) -> (r: String)
        ensures
            r@ == "No space in buffer"@,
    {
        String::from_str("No space in buffer")
    }
}

/// Relies on `String::from_utf8`: it succeeds exactly on valid UTF-8, and the
/// text it returns holds the characters that the bytes encode.
#[verifier::external_body]
fn decode_text(bytes: Vec<u8>) -> (r: Option<String>)
    ensures
        r is Some <==> valid_utf8(bytes@),
        r matches Some(s) ==> s@ == decode_utf8(bytes@),
{
    String::from_utf8(bytes).ok()
}

/// A byte ring buffer of fixed capacity.
#[derive(Debug)]
pub struct RingBuffer {
    read_idx: usize,
    write_idx: usize,
    data: Vec<u8>,
}

impl View for RingBuffer {
    type V = RingState;

    closed spec fn view(&self) -> RingState {
        RingState {
            store: self.data@,
            read_idx: self.read_idx as nat,
            write_idx: self.write_idx as nat,
        }
    }
}

impl RingBuffer {
    /// Creates a buffer of `size` empty slots with both cursors at 0.
    pub fn create(size: usize) -> (r: RingBuffer)
        requires
            size > 0,
        ensures
            r@ == empty_state(size as nat),
            r@.wf(),
    {
        let data: Vec<u8> = vec![0u8; size];
        let r = RingBuffer { read_idx: 0, write_idx: 0, data };
        assert(r@.store =~= empty_state(size as nat).store);
        r
    }

    /// The number of slots.
    pub fn capacity(&self) -> (r: usize)
        ensures
            r == self@.capacity(),
    {
        self.data.len()
    }

    /// The number of occupied slots.
    pub fn len(&self) -> (r: usize)
        ensures
            r == self@.occupancy(),
            r <= self@.capacity(),
    {
        let mut count: usize = 0;
        let mut i: usize = 0;
        while i < self.data.len()
            invariant
                i <= self.data@.len(),
                count == occupied(self.data@.subrange(0, i as int)),
                count <= i,
            decreases self.data@.len() - i,
        {
            proof {
                let s = self.data@.subrange(0, i as int);
                assert(self.data@.subrange(0, i + 1) =~= s.push(self.data@[i as int]));
                s.lemma_filter_len_push(|b: u8| is_filled(b), self.data@[i as int]);
            }
            if self.data[i] != 0 {
                count = count + 1;
            }
            i = i + 1;
        }
        assert(self.data@.subrange(0, i as int) =~= self.data@);
        count
    }

    /// Writes the bytes of `string` one by one at the write cursor, each into
    /// an empty slot, moving the cursor on after each. Stops with
    /// `NoSpaceLeft` at the first occupied slot, keeping what it wrote before;
    /// otherwise returns the new write cursor.
    pub fn write(&mut self, string: &str) -> (r: Result<usize, NoSpaceLeft>)
        requires
            old(self)@.wf(),
        ensures
            final(self)@ == old(self)@.write_outcome(string.spec_bytes()).0,
            final(self)@.wf(),
            r is Ok <==> old(self)@.write_outcome(string.spec_bytes()).1,
            r matches Ok(w) ==> w == final(self)@.write_idx,
    {
        let ghost s0 = self@;
        let bytes = string.as_bytes();
        let ghost b = bytes@;
        let mut i: usize = 0;
        proof {
            assert(b.skip(0) =~= b);
        }
        while i < bytes.len()
            invariant
                bytes@ == b,
                b == string.spec_bytes(),
                s0 == old(self)@,
                i <= b.len(),
                self@.wf(),
                self@.write_outcome(b.skip(i as int)) == s0.write_outcome(b),
            decreases b.len() - i,
        {
            proof {
                assert(b.skip(i as int).drop_first() =~= b.skip(i + 1));
                assert(b.skip(i as int)[0] == b[i as int]);
            }
            let w = self.write_idx;
            let cap = self.data.len();
            if self.data[w] != 0 {
                return Err(NoSpaceLeft);
            }
            self.data.set(w, bytes[i]);
            self.write_idx = (w + 1) % cap;
            i = i + 1;
        }
        proof {
            assert(b.skip(i as int) =~= Seq::<u8>::empty());
        }
        Ok(self.write_idx)
    }

    /// Moves the write cursor back to the read cursor, then reads
    /// `read_count` slots from the read cursor on, emptying each and moving
    /// the read cursor on. Returns the bytes read as text, or `None` where
    /// they are not valid UTF-8.
    pub fn read(&mut self, read_count: usize) -> (r: Option<String>)
        requires
            old(self)@.wf(),
        ensures
            final(self)@ == old(self)@.after_read(read_count as nat),
            final(self)@.wf(),
            r is Some <==> valid_utf8(old(self)@.read_out(read_count as nat)),
            r matches Some(s) ==> s@ == decode_utf8(old(self)@.read_out(read_count as nat)),
    {
        let ghost s0 = self@;
        let cap = self.data.len();
        let start = self.read_idx;
        self.write_idx = start;
        let mut out: Vec<u8> = Vec::new();
        let mut k: usize = 0;
        proof {
            assert(s0.read_out(0) =~= out@);
            assert(s0.after_read(0).store =~= self.data@);
            lemma_small_mod(start as nat, cap as nat);
        }
        while k < read_count
            invariant
                s0.wf(),
                cap == s0.capacity(),
                self.data@.len() == cap,
                start == s0.read_idx,
                self.write_idx == start,
                k <= read_count,
                self.read_idx as int == (start + k) % (cap as int),
                out@ == s0.read_out(k as nat),
                self.data@ == s0.after_read(k as nat).store,
            decreases read_count - k,
        {
            proof {
                lemma_read_step(s0, k as nat);
            }
            let r = self.read_idx;
            let ch = self.data[r];
            out.push(ch);
            self.data.set(r, 0);
            self.read_idx = (r + 1) % cap;
            k = k + 1;
        }
        proof {
            assert(self@ =~= s0.after_read(read_count as nat));
        }
        decode_text(out)
    }
}

} // verus!
