//! Laws that hold of every ring buffer state.

use vstd::prelude::*;
use crate::model::{
    RingState, is_filled, lemma_occupied_bounds, lemma_ring_offset, lemma_write_into_free, placed,
};
use vstd::arithmetic::div_mod::lemma_small_mod;

verus! {

/// Writing keeps the capacity and keeps both cursors inside the store.
proof fn lemma_write_keeps_wf(s: RingState, bytes: Seq<u8>)
    requires
        s.wf(),
    ensures
        s.write_outcome(bytes).0.wf(),
        s.write_outcome(bytes).0.capacity() == s.capacity(),
        s.write_outcome(bytes).0.read_idx == s.read_idx,
    decreases bytes.len(),
{
    if bytes.len() > 0 && !is_filled(s.store[s.write_idx as int]) {
        let s1 = RingState {
            store: s.store.update(s.write_idx as int, bytes[0]),
            write_idx: s.next(s.write_idx),
            ..s
        };
        lemma_write_keeps_wf(s1, bytes.drop_first());
    }
}

/// Capacity invariant: whatever is written or read, both cursors stay
/// below the capacity, the capacity does not change, and no state holds
/// more occupied slots than it has slots. Since a new buffer is well formed,
/// this holds after every sequence of operations.
pub proof fn lemma_capacity_invariant(s: RingState, bytes: Seq<u8>, count: nat)
    requires
        s.wf(),
    ensures
        s.occupancy() <= s.capacity(),
        s.write_outcome(bytes).0.wf(),
        s.write_outcome(bytes).0.capacity() == s.capacity(),
        s.after_read(count).wf(),
        s.after_read(count).capacity() == s.capacity(),
{
    lemma_occupied_bounds(s.store);
    lemma_write_keeps_wf(s, bytes);
}

/// Round trip: on a buffer with no occupied slot whose cursors meet,
/// writing up to capacity bytes succeeds, reading as many bytes back
/// yields exactly those bytes in order, and leaves no slot occupied.
pub proof fn lemma_round_trip(s: RingState, bytes: Seq<u8>)
    requires
        s.wf(),
        s.occupancy() == 0,
        s.read_idx == s.write_idx,
        bytes.len() <= s.capacity(),
    ensures
        s.write_outcome(bytes).1,
        s.write_outcome(bytes).0.read_out(bytes.len()) == bytes,
        s.write_outcome(bytes).0.after_read(bytes.len()).occupancy() == 0,
{
    let m = s.capacity() as int;
    let w = s.write_idx as int;
    let n = bytes.len();
    lemma_occupied_bounds(s.store);
    assert forall|i: int| 0 <= i < n implies !is_filled(#[trigger] s.store[(w + i) % m]) by {}
    lemma_write_into_free(s, bytes);
    let t = s.write_outcome(bytes).0;
    assert forall|i: int| 0 <= i < n implies #[trigger] t.read_out(n)[i] == bytes[i] by {
        let j = (w + i) % m;
        lemma_ring_offset(w, j, i, m);
        lemma_small_mod(i as nat, m as nat);
        assert(t.store[j] == placed(s.store, s.write_idx, bytes)[j]);
    }
    assert(t.read_out(n) =~= bytes);
    let u = t.after_read(n);
    assert forall|j: int| 0 <= j < m implies !is_filled(#[trigger] u.store[j]) by {}
    lemma_occupied_bounds(u.store);
}

/// Full then fail: when every slot is occupied, a write of one byte or
/// more fails at once and leaves the state, and so the occupancy, as it was.
pub proof fn lemma_full_write_fails(s: RingState, bytes: Seq<u8>)
    requires
        s.wf(),
        s.occupancy() == s.capacity(),
        bytes.len() > 0,
    ensures
        s.write_outcome(bytes) == (s, false),
{
    lemma_occupied_bounds(s.store);
    assert(is_filled(s.store[s.write_idx as int]));
}

} // verus!
