use vstd::prelude::*;

use crate::bytes::{lex_lt, lex_less, bytes_eq, lemma_lex_irreflexive, lemma_lex_connected,
    lemma_lex_transitive};

verus! {

/// The voting power a key maps to in a sorted association sequence, or `None`.
pub open spec fn vmap_find(s: Seq<(Seq<u8>, u64)>, k: Seq<u8>) -> Option<u64>
    decreases s.len(),
{
    if s.len() == 0 {
        None
    } else if s.first().0 == k {
        Some(s.first().1)
    } else {
        vmap_find(s.drop_first(), k)
    }
}

/// Keys strictly increase in lexicographic order.
pub open spec fn vmap_sorted(s: Seq<(Seq<u8>, u64)>) -> bool {
    forall|i: int, j: int| 0 <= i < j < s.len() ==> lex_lt(#[trigger] s[i].0, #[trigger] s[j].0)
}

/// The sorted association sequence after binding `k` to `v`: replaces the
/// entry for `k` or inserts one at its ordered position.
pub open spec fn vmap_insert(s: Seq<(Seq<u8>, u64)>, k: Seq<u8>, v: u64) -> Seq<(Seq<u8>, u64)>
    decreases s.len(),
{
    if s.len() == 0 {
        seq![(k, v)]
    } else if lex_lt(k, s.first().0) {
        seq![(k, v)] + s
    } else if s.first().0 == k {
        s.update(0, (k, v))
    } else {
        seq![s.first()] + vmap_insert(s.drop_first(), k, v)
    }
}

/// The validator voting-power table, sorted by key: the externally owned
/// mapping from 33-byte compressed public key to voting power.
pub struct Validators {
    entries: Vec<(Vec<u8>, u64)>,
}

impl View for Validators {
    type V = Seq<(Seq<u8>, u64)>;

    closed spec fn view(&self) -> Seq<(Seq<u8>, u64)> {
        self.entries@.map_values(|e: (Vec<u8>, u64)| (e.0@, e.1))
    }
}

impl Validators {
    pub open spec fn wf(&self) -> bool {
        vmap_sorted(self@)
    }

    pub open spec fn spec_get(&self, k: Seq<u8>) -> Option<u64> {
        vmap_find(self@, k)
    }

    pub fn new() -> (m: Validators)
        ensures
            m@ =~= Seq::<(Seq<u8>, u64)>::empty(),
            m.wf(),
    {
        Validators { entries: Vec::new() }
    }

    /// How many validators are known.
    pub fn len(&self) -> (n: usize)
        ensures
            n == self@.len(),
    {
        self.entries.len()
    }

    /// The key of the validator at position `i` in key-sorted order.
    pub fn key_at(&self, i: usize) -> (k: &Vec<u8>)
        requires
            i < self@.len(),
        ensures
            k@ == self@[i as int].0,
    {
        &self.entries[i].0
    }

    /// The voting power of the validator at position `i`.
    pub fn power_at(&self, i: usize) -> (p: u64)
        requires
            i < self@.len(),
        ensures
            p == self@[i as int].1,
    {
        self.entries[i].1
    }

    /// The voting power bound to key `k`, if any.
    pub fn get(&self, k: &Vec<u8>) -> (r: Option<u64>)
        ensures
            r == self.spec_get(k@),
    {
        let n = self.entries.len();
        let mut i: usize = 0;
        proof {
            assert(self@.skip(0) =~= self@);
        }
        while i < n
            invariant
                n == self@.len(),
                i <= n,
                vmap_find(self@, k@) == vmap_find(self@.skip(i as int), k@),
            decreases n - i,
        {
            proof {
                assert(self@.skip(i as int).first() == self@[i as int]);
                assert(self@.skip(i as int).drop_first() =~= self@.skip(i as int + 1));
            }
            if bytes_eq(&self.entries[i].0, k) {
                return Some(self.entries[i].1);
            }
            i = i + 1;
        }
        assert(self@.skip(n as int).len() == 0);
        None
    }

    /// Binds `k` to `v`, keeping the table sorted.
    pub fn insert(&mut self, k: &Vec<u8>, v: u64)
        requires
            old(self).wf(),
        ensures
            final(self).wf(),
            final(self)@ == vmap_insert(old(self)@, k@, v),
    {
        let ghost pre = self@;
        let n = self.entries.len();
        let mut i: usize = 0;
        proof {
            assert(pre.skip(0) =~= pre);
            assert(pre.take(0) =~= Seq::<(Seq<u8>, u64)>::empty());
            assert(vmap_insert(pre, k@, v) =~= pre.take(0) + vmap_insert(pre.skip(0), k@, v));
        }
        while i < n
            invariant
                self@ == pre,
                pre == old(self)@,
                vmap_sorted(pre),
                self.entries@.len() == n,
                n == pre.len(),
                i <= n,
                forall|j: int| 0 <= j < i ==> lex_lt(#[trigger] pre[j].0, k@),
                vmap_insert(pre, k@, v) == pre.take(i as int) + vmap_insert(
                    pre.skip(i as int),
                    k@,
                    v,
                ),
            decreases n - i,
        {
            proof {
                assert(pre.skip(i as int).first() == pre[i as int]);
                assert(pre.skip(i as int).drop_first() =~= pre.skip(i as int + 1));
            }
            if bytes_eq(&self.entries[i].0, k) {
                let key = k.clone();
                self.entries.set(i, (key, v));
                proof {
                    let tail = pre.skip(i as int);
                    assert(vmap_insert(tail, k@, v) == tail.update(0, (k@, v))) by {
                        lemma_lex_irreflexive(k@);
                    }
                    assert(pre.take(i as int) + tail.update(0, (k@, v)) =~= pre.update(
                        i as int,
                        (k@, v),
                    ));
                    assert(self@ =~= pre.update(i as int, (k@, v)));
                    assert forall|x: int, y: int| 0 <= x < y < self@.len() implies lex_lt(
                        #[trigger] self@[x].0,
                        #[trigger] self@[y].0,
                    ) by {
                        assert(self@[x].0 == pre[x].0);
                        assert(self@[y].0 == pre[y].0);
                    }
                }
                return ;
            }
            if lex_less(k, &self.entries[i].0) {
                let key = k.clone();
                self.entries.insert(i, (key, v));
                proof {
                    let tail = pre.skip(i as int);
                    assert(vmap_insert(tail, k@, v) == seq![(k@, v)] + tail);
                    assert(pre.take(i as int) + (seq![(k@, v)] + tail) =~= self@);
                    assert forall|x: int, y: int| 0 <= x < y < self@.len() implies lex_lt(
                        #[trigger] self@[x].0,
                        #[trigger] self@[y].0,
                    ) by {
                        if y < i {
                        } else if y == i {
                            assert(self@[y].0 == k@);
                            assert(lex_lt(pre[x].0, k@));
                        } else {
                            assert(self@[y].0 == pre[y - 1].0);
                            if x < i {
                                if y - 1 == x {
                                    assert(lex_lt(pre[x].0, k@));
                                    assert(lex_lt(k@, pre[i as int].0));
                                    assert(y - 1 == i);
                                } else {
                                    assert(lex_lt(pre[x].0, pre[y - 1].0));
                                }
                            } else if x == i {
                                assert(self@[x].0 == k@);
                                assert(lex_lt(k@, pre[i as int].0));
                                if y - 1 > i {
                                    lemma_lex_transitive(k@, pre[i as int].0, pre[y - 1].0);
                                }
                            } else {
                                assert(self@[x].0 == pre[x - 1].0);
                                assert(lex_lt(pre[x - 1].0, pre[y - 1].0));
                            }
                        }
                    }
                }
                return ;
            }
            proof {
                lemma_lex_connected_entry(pre[i as int].0, k@);
                assert(pre.take(i as int + 1) =~= pre.take(i as int) + seq![pre[i as int]]);
                assert(pre.take(i as int) + (seq![pre.skip(i as int).first()] + vmap_insert(
                    pre.skip(i as int).drop_first(),
                    k@,
                    v,
                )) =~= pre.take(i as int + 1) + vmap_insert(pre.skip(i as int + 1), k@, v));
            }
            i = i + 1;
        }
        let key = k.clone();
        self.entries.push((key, v));
        proof {
            assert(pre.skip(n as int).len() == 0);
            assert(vmap_insert(pre.skip(n as int), k@, v) =~= seq![(k@, v)]);
            assert(pre.take(n as int) =~= pre);
            assert(self@ =~= pre + seq![(k@, v)]);
            assert(self@ =~= vmap_insert(pre, k@, v));
            assert forall|x: int, y: int| 0 <= x < y < self@.len() implies lex_lt(
                #[trigger] self@[x].0,
                #[trigger] self@[y].0,
            ) by {
                if y == pre.len() {
                    assert(self@[y].0 == k@);
                    assert(lex_lt(pre[x].0, k@));
                }
            }
        }
    }
}

/// Two keys that are neither below one another are the same key.
proof fn lemma_lex_connected_entry(a: Seq<u8>, b: Seq<u8>)
    requires
        a != b,
        !lex_lt(b, a),
    ensures
        lex_lt(a, b),
{
    if !lex_lt(a, b) {
        lemma_lex_connected(a, b);
    }
}

/// After binding `k`, `k` maps to the new power and every other key to what
/// it mapped to before.
pub proof fn lemma_vmap_find_insert(s: Seq<(Seq<u8>, u64)>, k: Seq<u8>, v: u64, q: Seq<u8>)
    ensures
        vmap_find(vmap_insert(s, k, v), q) == if q == k {
            Some(v)
        } else {
            vmap_find(s, q)
        },
    decreases s.len(),
{
    let s2 = vmap_insert(s, k, v);
    if s.len() == 0 {
        assert(s2 =~= seq![(k, v)]);
        assert(s2.drop_first() =~= s);
    } else if lex_lt(k, s.first().0) {
        assert(s2.first() == (k, v));
        assert(s2.drop_first() =~= s);
    } else if s.first().0 == k {
        assert(s2.first() == (k, v));
        assert(s2.drop_first() =~= s.drop_first());
        if q != k {
            assert(vmap_find(s, q) == vmap_find(s.drop_first(), q));
        }
    } else {
        assert(s2.first() == s.first());
        assert(s2.drop_first() =~= vmap_insert(s.drop_first(), k, v));
        lemma_vmap_find_insert(s.drop_first(), k, v, q);
    }
}

} // verus!
