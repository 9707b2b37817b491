use vstd::prelude::*;

use crate::bytes::bytes_eq;

verus! {

/// An insert-only set of byte strings, kept in insertion order. Used for the
/// processed deposit txids and the redeemed work hashes: presence means a
/// replay.
pub struct ByteSet {
    items: Vec<Vec<u8>>,
}

impl View for ByteSet {
    type V = Seq<Seq<u8>>;

    closed spec fn view(&self) -> Seq<Seq<u8>> {
        self.items@.map_values(|e: Vec<u8>| e@)
    }
}

impl ByteSet {
    /// Elements occur at most once.
    pub open spec fn wf(&self) -> bool {
        forall|i: int, j: int| 0 <= i < j < self@.len() ==> self@[i] != self@[j]
    }

    pub fn new() -> (s: ByteSet)
        ensures
            s@ =~= Seq::<Seq<u8>>::empty(),
            s.wf(),
    {
        ByteSet { items: Vec::new() }
    }

    /// Whether `k` was inserted before.
    pub fn contains(&self, k: &Vec<u8>) -> (r: bool)
        ensures
            r == self@.contains(k@),
    {
        let n = self.items.len();
        let mut i: usize = 0;
        while i < n
            invariant
                n == self@.len(),
                i <= n,
                forall|j: int| 0 <= j < i ==> self@[j] != k@,
            decreases n - i,
        {
            if bytes_eq(&self.items[i], k) {
                assert(self@[i as int] == k@);
                return true;
            }
            i = i + 1;
        }
        assert(forall|j: int| 0 <= j < self@.len() ==> self@[j] != k@);
        false
    }

    /// Records `k`; the caller has already refused replays.
    pub fn insert(&mut self, k: &Vec<u8>)
        requires
            old(self).wf(),
            !old(self)@.contains(k@),
        ensures
            final(self).wf(),
            final(self)@ == old(self)@.push(k@),
    {
        let ghost pre = self@;
        let item = k.clone();
        self.items.push(item);
        proof {
            assert(self@ =~= pre.push(k@));
            assert forall|x: int, y: int| 0 <= x < y < self@.len() implies self@[x]
                != self@[y] by {
                if y == pre.len() {
                    assert(self@[y] == k@);
                    assert(pre.contains(self@[x]) == false ==> true);
                    assert(self@[x] == pre[x]);
                    assert(pre[x] != k@) by {
                        if pre[x] == k@ {
                            assert(pre.contains(k@));
                        }
                    }
                }
            }
        }
    }
}

} // verus!
