use vstd::prelude::*;

verus! {

/// One sidechain account: a satoshi balance and a replay-protection nonce.
#[derive(Clone, Copy, PartialEq, Eq, Structural, Debug)]
pub struct Account {
    pub balance: u64,
    pub nonce: u64,
}

impl Default for Account {
    /// A fresh account holds nothing and has made no signed action.
    fn default() -> (a: Account)
        ensures
            a.balance == 0 && a.nonce == 0,
    {
        Account { balance: 0, nonce: 0 }
    }
}

/// The account a key maps to in an association sequence, or `None`.
pub open spec fn amap_find(s: Seq<(Seq<u8>, Account)>, k: Seq<u8>) -> Option<Account>
    decreases s.len(),
{
    if s.len() == 0 {
        None
    } else if s.first().0 == k {
        Some(s.first().1)
    } else {
        amap_find(s.drop_first(), k)
    }
}

/// The first index at which `k` occurs in the association sequence.
pub open spec fn amap_index(s: Seq<(Seq<u8>, Account)>, k: Seq<u8>) -> int
    decreases s.len(),
{
    if s.len() == 0 {
        0
    } else if s.first().0 == k {
        0
    } else {
        1 + amap_index(s.drop_first(), k)
    }
}

/// Keys occur at most once.
pub open spec fn amap_wf(s: Seq<(Seq<u8>, Account)>) -> bool {
    forall|i: int, j: int| 0 <= i < j < s.len() ==> s[i].0 != s[j].0
}

/// The sum of all balances in the association sequence.
pub open spec fn sum_balances(s: Seq<(Seq<u8>, Account)>) -> nat
    decreases s.len(),
{
    if s.len() == 0 {
        0
    } else {
        (s.first().1.balance + sum_balances(s.drop_first())) as nat
    }
}

/// The accounts table: one entry per 33-byte address, created on first
/// credit and never destroyed.
pub struct AccountMap {
    entries: Vec<(Vec<u8>, Account)>,
}

impl View for AccountMap {
    type V = Seq<(Seq<u8>, Account)>;

    closed spec fn view(&self) -> Seq<(Seq<u8>, Account)> {
        self.entries@.map_values(|e: (Vec<u8>, Account)| (e.0@, e.1))
    }
}

impl AccountMap {
    pub open spec fn wf(&self) -> bool {
        amap_wf(self@)
    }

    pub open spec fn spec_get(&self, k: Seq<u8>) -> Option<Account> {
        amap_find(self@, k)
    }

    pub fn new() -> (m: AccountMap)
        ensures
            m@ =~= Seq::<(Seq<u8>, Account)>::empty(),
            m.wf(),
    {
        AccountMap { entries: Vec::new() }
    }

    /// The stored account for address `k`, if one exists.
    pub fn get(&self, k: &Vec<u8>) -> (r: Option<Account>)
        ensures
            r == self.spec_get(k@),
    {
        let n = self.entries.len();
        let mut i: usize = 0;
        proof {
            assert(self@.skip(0) =~= self@);
        }
        while i < n
            invariant
                n == self@.len(),
                i <= n,
                amap_find(self@, k@) == amap_find(self@.skip(i as int), k@),
            decreases n - i,
        {
            if crate::bytes::bytes_eq(&self.entries[i].0, k) {
                proof {
                    assert(self@.skip(i as int).first() == self@[i as int]);
                }
                return Some(self.entries[i].1);
            }
            proof {
                assert(self@.skip(i as int).first() == self@[i as int]);
                assert(self@.skip(i as int).drop_first() =~= self@.skip(i as int + 1));
            }
            i = i + 1;
        }
        assert(self@.skip(n as int).len() == 0);
        None
    }

    /// Stores `a` at address `k`, replacing any previous entry.
    pub fn insert(&mut self, k: &Vec<u8>, a: Account)
        requires
            old(self).wf(),
        ensures
            final(self).wf(),
            old(self).spec_get(k@) is None ==> final(self)@ == old(self)@.push((k@, a)),
            old(self).spec_get(k@) is Some ==> final(self)@ == old(self)@.update(
                amap_index(old(self)@, k@),
                (k@, a),
            ),
    {
        let ghost pre = self@;
        let n = self.entries.len();
        let mut i: usize = 0;
        proof {
            assert(pre.skip(0) =~= pre);
        }
        while i < n
            invariant
                self@ == pre,
                pre == old(self)@,
                amap_wf(pre),
                self.entries@.len() == n,
                i <= n,
                amap_find(pre, k@) == amap_find(pre.skip(i as int), k@),
                amap_find(pre, k@) is Some ==> amap_index(pre, k@) == i + amap_index(
                    pre.skip(i as int),
                    k@,
                ),
                forall|j: int| 0 <= j < i ==> pre[j].0 != k@,
            decreases n - i,
        {
            proof {
                assert(pre.skip(i as int).first() == pre[i as int]);
                assert(pre.skip(i as int).drop_first() =~= pre.skip(i as int + 1));
            }
            if crate::bytes::bytes_eq(&self.entries[i].0, k) {
                let key = k.clone();
                self.entries.set(i, (key, a));
                proof {
                    assert(amap_find(pre, k@) is Some);
                    assert(amap_index(pre, k@) == i as int);
                    assert(self@ =~= pre.update(i as int, (k@, a)));
                    lemma_amap_wf_update(pre, i as int, (k@, a));
                }
                return ;
            }
            i = i + 1;
        }
        assert(pre.skip(n as int).len() == 0);
        assert(amap_find(pre, k@) is None);
        let key = k.clone();
        self.entries.push((key, a));
        proof {
            assert(self@ =~= pre.push((k@, a)));
            lemma_amap_find_none_not_contains(pre, k@);
            assert forall|x: int, y: int| 0 <= x < y < self@.len() implies self@[x].0
                != self@[y].0 by {
                if y < pre.len() {
                } else {
                    assert(self@[y].0 == k@);
                    assert(self@[x] == pre[x]);
                }
            }
        }
    }
}

/// A key that `amap_find` misses occurs nowhere in the sequence.
pub proof fn lemma_amap_find_none_not_contains(s: Seq<(Seq<u8>, Account)>, k: Seq<u8>)
    requires
        amap_find(s, k) is None,
    ensures
        forall|i: int| 0 <= i < s.len() ==> s[i].0 != k,
    decreases s.len(),
{
    if s.len() > 0 {
        lemma_amap_find_none_not_contains(s.drop_first(), k);
        assert forall|i: int| 0 <= i < s.len() implies s[i].0 != k by {
            if i > 0 {
                assert(s.drop_first()[i - 1] == s[i]);
            }
        }
    }
}

/// Updating an entry in place, keeping its key distinctness, keeps the table
/// well-formed.
pub proof fn lemma_amap_wf_update(s: Seq<(Seq<u8>, Account)>, i: int, e: (Seq<u8>, Account))
    requires
        amap_wf(s),
        0 <= i < s.len(),
        s[i].0 == e.0,
    ensures
        amap_wf(s.update(i, e)),
{
    assert forall|x: int, y: int|
        0 <= x < y < s.update(i, e).len() implies s.update(i, e)[x].0 != s.update(
        i,
        e,
    )[y].0 by {
        assert(s.update(i, e)[x].0 == s[x].0);
        assert(s.update(i, e)[y].0 == s[y].0);
    }
}

/// Looking up any key after an update at `k`'s index: `k` now maps to the new
/// account, every other key to what it mapped to before.
pub proof fn lemma_amap_find_update(s: Seq<(Seq<u8>, Account)>, k: Seq<u8>, a: Account, q: Seq<u8>)
    requires
        amap_wf(s),
        amap_find(s, k) is Some,
    ensures
        amap_find(s.update(amap_index(s, k), (k, a)), q) == if q == k {
            Some(a)
        } else {
            amap_find(s, q)
        },
    decreases s.len(),
{
    lemma_amap_index_props(s, k);
    let i = amap_index(s, k);
    let s2 = s.update(i, (k, a));
    if s.first().0 == k {
        assert(i == 0);
        assert(s2.first() == (k, a));
        assert(s2.drop_first() =~= s.drop_first());
    } else {
        assert(i >= 1);
        assert(s2.first() == s.first());
        assert(s2.drop_first() =~= s.drop_first().update(i - 1, (k, a)));
        lemma_amap_find_update(s.drop_first(), k, a, q);
    }
}

/// Looking up any key after a push: the new key maps to the new account,
/// every key already present to what it mapped to before.
pub proof fn lemma_amap_find_push(s: Seq<(Seq<u8>, Account)>, k: Seq<u8>, a: Account, q: Seq<u8>)
    requires
        amap_find(s, k) is None,
    ensures
        amap_find(s.push((k, a)), q) == if q == k {
            Some(a)
        } else {
            amap_find(s, q)
        },
    decreases s.len(),
{
    if s.len() == 0 {
        assert(s.push((k, a)).drop_first() =~= s);
    } else {
        assert(s.push((k, a)).first() == s.first());
        assert(s.push((k, a)).drop_first() =~= s.drop_first().push((k, a)));
        lemma_amap_find_push(s.drop_first(), k, a, q);
    }
}

/// The sum of balances after an in-place update changes by exactly the
/// difference of the touched entry's balances.
pub proof fn lemma_sum_update(s: Seq<(Seq<u8>, Account)>, i: int, e: (Seq<u8>, Account))
    requires
        0 <= i < s.len(),
    ensures
        sum_balances(s.update(i, e)) + s[i].1.balance == sum_balances(s) + e.1.balance,
    decreases s.len(),
{
    let s2 = s.update(i, e);
    if i == 0 {
        assert(s2.first() == e);
        assert(s2.drop_first() =~= s.drop_first());
    } else {
        assert(s2.first() == s.first());
        assert(s2.drop_first() =~= s.drop_first().update(i - 1, e));
        lemma_sum_update(s.drop_first(), i - 1, e);
    }
}

/// The sum of balances after a push grows by the new entry's balance.
pub proof fn lemma_sum_push(s: Seq<(Seq<u8>, Account)>, e: (Seq<u8>, Account))
    ensures
        sum_balances(s.push(e)) == sum_balances(s) + e.1.balance,
    decreases s.len(),
{
    if s.len() == 0 {
        assert(s.push(e).drop_first() =~= s);
    } else {
        assert(s.push(e).first() == s.first());
        assert(s.push(e).drop_first() =~= s.drop_first().push(e));
        lemma_sum_push(s.drop_first(), e);
    }
}

/// The entry found for a key is the entry at its index.
pub proof fn lemma_amap_index_props(s: Seq<(Seq<u8>, Account)>, k: Seq<u8>)
    requires
        amap_find(s, k) is Some,
    ensures
        0 <= amap_index(s, k) < s.len(),
        s[amap_index(s, k)].0 == k,
        s[amap_index(s, k)].1 == amap_find(s, k)->Some_0,
    decreases s.len(),
{
    if s.first().0 != k {
        lemma_amap_index_props(s.drop_first(), k);
        assert(s[amap_index(s, k)] == s.drop_first()[amap_index(s, k) - 1]);
    }
}

} // verus!
