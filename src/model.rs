//! The mathematical model of a ring buffer and of its operations.

use vstd::prelude::*;
use vstd::arithmetic::div_mod::{
    lemma_add_mod_noop, lemma_add_mod_noop_right, lemma_mod_sub_multiples_vanish, lemma_small_mod,
    lemma_sub_mod_noop, lemma_sub_mod_noop_right,
};

verus! {

/// A slot is occupied when it holds a non-zero byte.
pub open spec fn is_filled(b: u8) -> bool {
    b != 0
}

/// The number of occupied slots in a store.
pub open spec fn occupied(store: Seq<u8>) -> nat {
    store.filter(|b: u8| is_filled(b)).len()
}

/// The abstract state of a ring buffer: its store and its two cursors.
pub struct RingState {
    pub store: Seq<u8>,
    pub read_idx: nat,
    pub write_idx: nat,
}

impl RingState {
    pub open spec fn capacity(self) -> nat {
        self.store.len()
    }

    /// The capacity is positive and both cursors point into the store.
    pub open spec fn wf(self) -> bool {
        &&& self.capacity() > 0
        &&& self.read_idx < self.capacity()
        &&& self.write_idx < self.capacity()
    }

    /// The number of occupied slots.
    pub open spec fn occupancy(self) -> nat {
        occupied(self.store)
    }

    /// The cursor position one step after `i`.
    pub open spec fn next(self, i: nat) -> nat {
        (i + 1) % self.capacity()
    }

    /// Writes `bytes` one by one at the write cursor, each into an empty slot.
    /// Returns the state reached and whether every byte found an empty slot.
    /// On the first occupied slot it stops, keeping the bytes written so far.
    pub open spec fn write_outcome(self, bytes: Seq<u8>) -> (RingState, bool)
        decreases bytes.len(),
    {
        if bytes.len() == 0 {
            (self, true)
        } else if is_filled(self.store[self.write_idx as int]) {
            (self, false)
        } else {
            RingState {
                store: self.store.update(self.write_idx as int, bytes[0]),
                write_idx: self.next(self.write_idx),
                ..self
            }.write_outcome(bytes.drop_first())
        }
    }

    /// The bytes that reading `count` slots from the read cursor yields: the
    /// store's slots in ring order, and zeros once the reader comes round to
    /// slots it has already emptied.
    pub open spec fn read_out(self, count: nat) -> Seq<u8> {
        Seq::new(
            count,
            |i: int|
                if i < self.capacity() {
                    self.store[(self.read_idx + i) % (self.capacity() as int)]
                } else {
                    0u8
                },
        )
    }

    /// Whether slot `j` is among the first `count` slots read from `read_idx`.
    pub open spec fn is_consumed(self, j: int, count: nat) -> bool {
        (j - self.read_idx) % (self.capacity() as int) < count
    }

    /// The state after reading `count` slots: the write cursor is moved back
    /// to where reading starts, each slot read is emptied and the read
    /// cursor moves `count` steps on.
    pub open spec fn after_read(self, count: nat) -> RingState {
        RingState {
            store: Seq::new(
                self.capacity(),
                |j: int|
                    if self.is_consumed(j, count) {
                        0u8
                    } else {
                        self.store[j]
                    },
            ),
            read_idx: (self.read_idx + count) % self.capacity(),
            write_idx: self.read_idx,
        }
    }
}

/// The state of a new buffer: `capacity` empty slots, both cursors at 0.
pub open spec fn empty_state(capacity: nat) -> RingState {
    RingState { store: Seq::new(capacity, |j: int| 0u8), read_idx: 0, write_idx: 0 }
}

/// Slot `j` lies `k` steps past slot `r` exactly when it is `(r + k) % m`.
pub proof fn lemma_ring_offset(r: int, j: int, k: int, m: int)
    requires
        0 < m,
        0 <= r < m,
        0 <= j < m,
        0 <= k,
    ensures
        (j - r) % m == k % m <==> j == (r + k) % m,
        ((r + k) % m - r) % m == k % m,
{
    lemma_small_mod(r as nat, m as nat);
    lemma_small_mod(j as nat, m as nat);
    lemma_sub_mod_noop(r + k, r, m);
    lemma_add_mod_noop(j - r, r, m);
    lemma_add_mod_noop(k, r, m);
    assert((r + k) - r == k);
    assert((j - r) + r == j);
}

/// One more step of reading, from `k` slots read to `k + 1`: the slot at the
/// cursor is the only one that joins the consumed ones, and what it holds at
/// that point is what `read_out` gives at position `k`.
pub proof fn lemma_read_step(s: RingState, k: nat)
    requires
        s.wf(),
    ensures
        ({
            let m = s.capacity() as int;
            let r = s.read_idx as int;
            let p = (r + k) % m;
            &&& 0 <= p < m
            &&& (p + 1) % m == (r + k + 1) % m
            &&& s.after_read(k).store[p] == s.read_out(k + 1)[k as int]
            &&& s.after_read(k + 1).store =~= s.after_read(k).store.update(p, 0u8)
            &&& s.read_out(k + 1) =~= s.read_out(k).push(s.after_read(k).store[p])
        }),
{
    let m = s.capacity() as int;
    let r = s.read_idx as int;
    let p = (r + k) % m;
    lemma_add_mod_noop_right(1, r + k, m);
    assert((1 + (r + k) % m) % m == (r + k + 1) % m);
    lemma_ring_offset(r, p, k as int, m);
    if k < m {
        lemma_small_mod(k, m as nat);
    }
    assert forall|j: int| 0 <= j < m implies
        (s.is_consumed(j, k + 1) <==> (s.is_consumed(j, k) || j == p)) by {
        lemma_ring_offset(r, j, k as int, m);
        if k < m {
            lemma_small_mod(k, m as nat);
        }
    }
}

/// The store after `bytes` went into the slots from `w` on, in ring order.
pub open spec fn placed(store: Seq<u8>, w: nat, bytes: Seq<u8>) -> Seq<u8> {
    Seq::new(
        store.len(),
        |j: int|
            {
                let d = (j - w) % (store.len() as int);
                if d < bytes.len() {
                    bytes[d]
                } else {
                    store[j]
                }
            },
    )
}

/// The occupancy is at most the length, is 0 exactly when every slot is
/// empty, and equals the length exactly when every slot is occupied.
pub proof fn lemma_occupied_bounds(store: Seq<u8>)
    ensures
        occupied(store) <= store.len(),
        occupied(store) == 0 <==> forall|i: int| 0 <= i < store.len() ==> !is_filled(#[trigger] store[i]),
        occupied(store) == store.len() <==> forall|i: int|
            0 <= i < store.len() ==> is_filled(#[trigger] store[i]),
    decreases store.len(),
{
    reveal(Seq::filter);
    if store.len() > 0 {
        let rest = store.drop_last();
        lemma_occupied_bounds(rest);
        assert(store.filter(|b: u8| is_filled(b)) == if is_filled(store.last()) {
            rest.filter(|b: u8| is_filled(b)).push(store.last())
        } else {
            rest.filter(|b: u8| is_filled(b))
        });
        assert forall|i: int| 0 <= i < rest.len() implies rest[i] == store[i] by {}
        if occupied(store) == 0 {
            assert forall|i: int| 0 <= i < store.len() implies !is_filled(#[trigger] store[i]) by {
                if i < rest.len() {
                    assert(!is_filled(rest[i]));
                }
            }
        }
        if occupied(store) == store.len() {
            assert forall|i: int| 0 <= i < store.len() implies is_filled(#[trigger] store[i]) by {
                if i < rest.len() {
                    assert(is_filled(rest[i]));
                }
            }
        }
        if forall|i: int| 0 <= i < store.len() ==> !is_filled(#[trigger] store[i]) {
            assert(!is_filled(store[store.len() - 1]));
            assert forall|i: int| 0 <= i < rest.len() implies !is_filled(#[trigger] rest[i]) by {
                assert(!is_filled(store[i]));
            }
        }
        if forall|i: int| 0 <= i < store.len() ==> is_filled(#[trigger] store[i]) {
            assert(is_filled(store[store.len() - 1]));
            assert forall|i: int| 0 <= i < rest.len() implies is_filled(#[trigger] rest[i]) by {
                assert(is_filled(store[i]));
            }
        }
    }
}

/// Writing bytes into slots that are all empty succeeds: each byte lands
/// in its slot and the write cursor moves on by the number of bytes.
pub proof fn lemma_write_into_free(s: RingState, bytes: Seq<u8>)
    requires
        s.wf(),
        bytes.len() <= s.capacity(),
        forall|i: int|
            0 <= i < bytes.len() ==> !is_filled(
                #[trigger] s.store[(s.write_idx + i) % (s.capacity() as int)],
            ),
    ensures
        s.write_outcome(bytes) == (
        RingState {
            store: placed(s.store, s.write_idx, bytes),
            write_idx: (s.write_idx + bytes.len()) % s.capacity(),
            read_idx: s.read_idx,
        },
        true,
    ),
    decreases bytes.len(),
{
    let m = s.capacity() as int;
    let w = s.write_idx as int;
    let n = bytes.len() as int;
    lemma_small_mod(w as nat, m as nat);
    if n == 0 {
        assert(placed(s.store, s.write_idx, bytes) =~= s.store);
    } else {
        assert(s.store[(w + 0) % m] == s.store[w]);
        let s1 = RingState {
            store: s.store.update(w, bytes[0]),
            write_idx: s.next(s.write_idx),
            ..s
        };
        let rest = bytes.drop_first();
        let w1 = s1.write_idx as int;
        lemma_add_mod_noop_right(1, w, m);
        assert(w1 == (w + 1) % m);
        assert forall|i: int| 0 <= i < rest.len() implies !is_filled(
            #[trigger] s1.store[(w1 + i) % m],
        ) by {
            lemma_add_mod_noop_right(i, w + 1, m);
            assert((w1 + i) % m == (w + (i + 1)) % m);
            lemma_ring_offset(w, w, i + 1, m);
            lemma_small_mod((i + 1) as nat, m as nat);
            assert((w - w) % m == 0);
            assert(!is_filled(s.store[(w + (i + 1)) % m]));
        }
        lemma_write_into_free(s1, rest);
        lemma_add_mod_noop_right(n - 1, w + 1, m);
        assert((w1 + (n - 1)) % m == (w + n) % m);
        assert forall|j: int| 0 <= j < m implies #[trigger] placed(s1.store, s1.write_idx, rest)[j]
            == placed(s.store, s.write_idx, bytes)[j] by {
            let d = (j - w) % m;
            let d1 = (j - w1) % m;
            lemma_sub_mod_noop_right(j, w + 1, m);
            lemma_sub_mod_noop(j - w, 1, m);
            lemma_sub_mod_noop_right(d, 1, m);
            assert(d1 == (d - 1) % m);
            lemma_ring_offset(w, j, 0, m);
            assert(0nat % (m as nat) == 0);
            if d == 0 {
                lemma_mod_sub_multiples_vanish(m - 1, m);
                lemma_small_mod((m - 1) as nat, m as nat);
                assert(d1 == m - 1);
                assert(j == w % m);
            } else {
                lemma_small_mod((d - 1) as nat, m as nat);
                assert(j != w);
            }
        }
        assert(placed(s1.store, s1.write_idx, rest) =~= placed(s.store, s.write_idx, bytes));
    }
}

} // verus!
