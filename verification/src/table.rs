use vstd::multiset::Multiset;
use vstd::prelude::*;

use crate::hash::HashFunction;

verus! {

broadcast use vstd::multiset::group_multiset_axioms;

/// The multiset of keys stored in a slot array.
pub open spec fn stored_keys(t: Seq<Option<usize>>) -> Multiset<usize>
    decreases t.len(),
{
    if t.len() == 0 {
        Multiset::empty()
    } else {
        match t.last() {
            None => stored_keys(t.drop_last()),
            Some(k) => stored_keys(t.drop_last()).insert(k),
        }
    }
}

/// Writing `Some(v)` into slot `i` adds `v` to the stored keys and, when
/// the slot was occupied, trades it for exactly its former occupant.
proof fn lemma_stored_keys_update(t: Seq<Option<usize>>, i: int, v: usize)
    requires
        0 <= i < t.len(),
    ensures
        match t[i] {
            None => stored_keys(t.update(i, Some(v))) == stored_keys(t).insert(v),
            Some(w) => stored_keys(t.update(i, Some(v))).insert(w) == stored_keys(t).insert(v),
        },
    decreases t.len(),
{
    let u = t.update(i, Some(v));
    if i == t.len() - 1 {
        assert(u.drop_last() =~= t.drop_last());
        match t[i] {
            None => {
                assert(stored_keys(u) == stored_keys(t).insert(v));
            },
            Some(w) => {
                assert(stored_keys(u).insert(w) =~= stored_keys(t).insert(v));
            },
        }
    } else {
        assert(u.drop_last() =~= t.drop_last().update(i, Some(v)));
        assert(u.last() == t.last());
        assert(t.drop_last()[i] == t[i]);
        lemma_stored_keys_update(t.drop_last(), i, v);
        match t.last() {
            None => {
                assert(stored_keys(u) == stored_keys(u.drop_last()));
                assert(stored_keys(t) == stored_keys(t.drop_last()));
            },
            Some(l) => {
                assert(stored_keys(u) == stored_keys(u.drop_last()).insert(l));
                assert(stored_keys(t) == stored_keys(t.drop_last()).insert(l));
            },
        }
        match t[i] {
            None => {
                assert forall|m: usize|
                    stored_keys(u).count(m) == stored_keys(t).insert(v).count(m) by {
                    assert(stored_keys(u.drop_last()).count(m) == stored_keys(
                        t.drop_last(),
                    ).insert(v).count(m));
                }
                assert(stored_keys(u) =~= stored_keys(t).insert(v));
            },
            Some(w) => {
                assert forall|m: usize|
                    stored_keys(u).insert(w).count(m) == stored_keys(t).insert(v).count(m) by {
                    assert(stored_keys(u.drop_last()).insert(w).count(m) == stored_keys(
                        t.drop_last(),
                    ).insert(v).count(m));
                }
                assert(stored_keys(u).insert(w) =~= stored_keys(t).insert(v));
            },
        }
    }
}

/// A cuckoo hash table: two slot arrays of equal, fixed length, each slot
/// holding at most one key, paired with two hash functions. A key `k` is
/// considered present exactly when it sits in its canonical slot of one of
/// the two tables: `table1[hash1(k) % size]` or `table2[hash2(k) % size]`.
pub struct CuckooTable<H1: HashFunction, H2: HashFunction> {
    pub hash1: H1,
    pub hash2: H2,
    pub table1: Vec<Option<usize>>,
    pub table2: Vec<Option<usize>>,
    pub size: usize,
}

impl<H1: HashFunction, H2: HashFunction> CuckooTable<H1, H2> {
    /// The slot index of key `k` in the first table.
    pub open spec fn idx1(self, k: usize) -> int {
        self.hash1.spec_hash(k) as int % self.size as int
    }

    /// The slot index of key `k` in the second table.
    pub open spec fn idx2(self, k: usize) -> int {
        self.hash2.spec_hash(k) as int % self.size as int
    }

    /// Membership: `k` occupies its canonical slot in one of the tables.
    pub open spec fn present(self, k: usize) -> bool {
        ||| self.table1@[self.idx1(k)] == Some(k)
        ||| self.table2@[self.idx2(k)] == Some(k)
    }

    /// Every occupied slot holds a key whose canonical index is that very
    /// slot: keys are only ever placed where their own hash sends them.
    pub open spec fn slots_placed(self) -> bool {
        &&& forall|i: int|
            0 <= i < self.table1@.len() ==> ((#[trigger] self.table1@[i]) matches Some(k) ==>
                self.idx1(k) == i)
        &&& forall|i: int|
            0 <= i < self.table2@.len() ==> ((#[trigger] self.table2@[i]) matches Some(k) ==>
                self.idx2(k) == i)
    }

    /// Well-formedness: positive size, both tables of exactly that length,
    /// well-formed hash functions, and every key seated at its canonical
    /// slot. Established by construction and preserved by insertion.
    pub open spec fn wf(self) -> bool {
        &&& self.size > 0
        &&& self.table1@.len() == self.size
        &&& self.table2@.len() == self.size
        &&& self.hash1.wf()
        &&& self.hash2.wf()
        &&& self.slots_placed()
    }

    /// The multiset of keys stored anywhere in the table, one occurrence
    /// per occupied slot.
    pub open spec fn stored(self) -> Multiset<usize> {
        stored_keys(self.table1@).add(stored_keys(self.table2@))
    }

    /// The number of displacement rounds after which insertion gives up.
    pub open spec fn round_limit(self) -> nat {
        if self.size < usize::MAX / 8 {
            8 * (self.size as nat)
        } else {
            usize::MAX as nat
        }
    }

    /// The displacement chain as a function: from the two slot arrays, the
    /// key in hand `x`, the origin `xi` and the number of rounds left, to
    /// the final arrays and whether insertion succeeds. One round seats
    /// `x` at its slot of the first array and re-seats whoever that
    /// displaces through the second array, stopping on a free slot, on an
    /// eviction of the origin, or when the rounds run out. `insert`
    /// computes exactly this function of the tables it starts from, the
    /// inserted key and the round limit.
    pub open spec fn chain(
        self,
        t1: Seq<Option<usize>>,
        t2: Seq<Option<usize>>,
        x: usize,
        xi: usize,
        fuel: nat,
    ) -> (Seq<Option<usize>>, Seq<Option<usize>>, bool)
        decreases fuel,
    {
        match t1[self.idx1(x)] {
            None => (t1.update(self.idx1(x), Some(x)), t2, true),
            Some(y) => {
                let t1b = t1.update(self.idx1(x), Some(x));
                match t2[self.idx2(y)] {
                    None => (t1b, t2.update(self.idx2(y), Some(y)), true),
                    Some(z) => {
                        if z == xi {
                            (t1b, t2, false)
                        } else if fuel <= 1 {
                            (t1b, t2.update(self.idx2(y), Some(y)), false)
                        } else {
                            self.chain(
                                t1b,
                                t2.update(self.idx2(y), Some(y)),
                                z,
                                xi,
                                (fuel - 1) as nat,
                            )
                        }
                    },
                }
            },
        }
    }

    /// Builds a table with `sz` empty slots in each of the two arrays,
    /// taking ownership of the two hash functions. No key is present in a
    /// fresh table.
    pub fn new(h1: H1, h2: H2, sz: usize) -> (r: Self)
        requires
            sz > 0,
            h1.wf(),
            h2.wf(),
        ensures
            r.wf(),
            r.size == sz,
            r.hash1 == h1,
            r.hash2 == h2,
            forall|i: int| 0 <= i < sz ==> r.table1@[i] is None && r.table2@[i] is None,
            forall|k: usize| !r.present(k),
    {
        let table1 = empty_slots(sz);
        let table2 = empty_slots(sz);
        Self { hash1: h1, hash2: h2, size: sz, table1, table2 }
    }

    /// Inserts `xi`, maintaining well-formedness, by a chain of
    /// displacements: `xi` goes to its slot in the first table; whoever was
    /// evicted goes to its own slot in the second table; whoever that
    /// evicts is in turn re-seated through the first table, and so on. The
    /// chain stops with an error as soon as re-seating would displace `xi`
    /// itself out of the second table again.
    ///
    /// The outcome — both final arrays and the result — is exactly
    /// `chain`, applied to the starting arrays, `xi` and the round limit:
    /// insertion is a deterministic function of the table state, the hash
    /// functions and the key. On success the membership set is exactly the
    /// old one plus `xi`, and the stored keys, counted slot by slot, are
    /// exactly the old ones plus one occurrence of `xi`: displacement
    /// relocates, it never silently drops. In particular, when `xi`'s slot
    /// in the first table is free, `xi` lands exactly there and nothing
    /// else moves. On an error `xi` itself is still present and exactly
    /// one stored key — the one displaced last, possibly `xi` — is lost:
    /// the tables are left in their partially-displaced state, and the
    /// caller should rebuild with a larger size or other hash functions.
    ///
    /// The origin check alone is incomplete: a displacement rotation that
    /// never passes back through `xi` would run forever. Insertion
    /// therefore also gives up, with the same error, once the chain has
    /// run for eight times as many rounds as one array has slots. A chain
    /// that can still end on its own never needs that many: it involves at
    /// most two keys per slot plus the new one, and revisits none of them
    /// more than twice.
    pub fn insert(&mut self, xi: usize) -> (r: Result<(), &'static str>)
        requires
            old(self).wf(),
        ensures
            final(self).wf(),
            final(self).size == old(self).size,
            final(self).hash1 == old(self).hash1,
            final(self).hash2 == old(self).hash2,
            r is Ok ==> forall|k: usize|
                final(self).present(k) <==> (old(self).present(k) || k == xi),
            r is Err ==> forall|k: usize|
                final(self).present(k) ==> (old(self).present(k) || k == xi),
            r is Err ==> final(self).present(xi),
            old(self).table1@[old(self).idx1(xi)] is None ==> (r is Ok
                && final(self).table1@ == old(self).table1@.update(old(self).idx1(xi), Some(xi))
                && final(self).table2@ == old(self).table2@),
            ({
                let c = old(self).chain(
                    old(self).table1@,
                    old(self).table2@,
                    xi,
                    xi,
                    old(self).round_limit(),
                );
                &&& final(self).table1@ == c.0
                &&& final(self).table2@ == c.1
                &&& (r is Ok <==> c.2)
            }),
            r matches Err(e) ==> e@ == "cycle, rehash"@,
            r is Ok ==> final(self).stored() == old(self).stored().insert(xi),
            r is Err ==> exists|y: usize|
                old(self).stored().insert(xi).count(y) > 0 && #[trigger] final(self).stored().insert(y)
                    == old(self).stored().insert(xi),
    {
        let mut x: usize = xi;
        let limit: usize = if self.size < usize::MAX / 8 {
            8 * self.size
        } else {
            usize::MAX
        };
        let mut rounds: usize = 0;
        loop
            invariant_except_break
                old(self).table1@[old(self).idx1(xi)] is None ==> (x == xi && self.table1@
                    == old(self).table1@ && self.table2@ == old(self).table2@),
                old(self).chain(old(self).table1@, old(self).table2@, xi, xi,
                old(self).round_limit()) == old(self).chain(self.table1@, self.table2@, x, xi, (
                limit - rounds) as nat),
                self.stored().insert(x) == old(self).stored().insert(xi),
            invariant
                self.wf(),
                self.size == old(self).size,
                self.hash1 == old(self).hash1,
                self.hash2 == old(self).hash2,
                rounds < limit,
                limit as nat == old(self).round_limit(),
                forall|k: usize| (self.present(k) || k == x) <==> (old(self).present(k) || k
                    == xi),
            ensures
                self.wf(),
                self.size == old(self).size,
                self.hash1 == old(self).hash1,
                self.hash2 == old(self).hash2,
                forall|k: usize| self.present(k) <==> (old(self).present(k) || k == xi),
                old(self).table1@[old(self).idx1(xi)] is None ==> (self.table1@
                    == old(self).table1@.update(old(self).idx1(xi), Some(xi)) && self.table2@
                    == old(self).table2@),
                old(self).chain(old(self).table1@, old(self).table2@, xi, xi,
                old(self).round_limit()) == (self.table1@, self.table2@, true),
                self.stored() == old(self).stored().insert(xi),
            decreases limit - rounds,
        {
            let ghost pre = *self;
            let ghost x0 = x;
            let ghost fuel = (limit - rounds) as nat;
            let index1 = self.hash1.hash(x) % self.size;
            proof {
                assert(pre.idx1(x) == index1 as int);
                assert(old(self).idx1(x) == index1 as int);
            }
            let slot1 = self.table1[index1];
            match slot1 {
                None => {
                    self.table1[index1] = Some(x);
                    proof {
                        assert forall|k: usize| self.present(k) <==> (old(self).present(k) || k
                            == xi) by {
                            assert((pre.present(k) || k == x) <==> (old(self).present(k) || k
                                == xi));
                        }
                        lemma_stored_keys_update(pre.table1@, index1 as int, x);
                        assert(self.stored() =~= pre.stored().insert(x));
                        assert(old(self).chain(pre.table1@, pre.table2@, x, xi, fuel) == (
                        self.table1@,
                        self.table2@,
                        true,
                        ));
                    }
                    break;
                },
                Some(y) => {
                    self.table1[index1] = Some(x);
                    proof {
                        // `xi`'s slot in the first table cannot have been free at
                        // entry: the first round would have filled it and stopped.
                        assert(pre.idx1(y) == index1 as int);
                        assert(!(old(self).table1@[old(self).idx1(xi)] is None));
                        lemma_stored_keys_update(pre.table1@, index1 as int, x);
                    }
                    let index2 = self.hash2.hash(y) % self.size;
                    proof {
                        assert(pre.idx2(y) == index2 as int);
                        assert(old(self).idx2(y) == index2 as int);
                    }
                    let slot2 = self.table2[index2];
                    match slot2 {
                        None => {
                            self.table2[index2] = Some(y);
                            proof {
                                assert forall|k: usize| self.present(k) <==> (
                                old(self).present(k) || k == xi) by {
                                    assert((pre.present(k) || k == x) <==> (old(self).present(k)
                                        || k == xi));
                                }
                                lemma_stored_keys_update(pre.table2@, index2 as int, y);
                                assert forall|m: usize|
                                    self.stored().count(m) == pre.stored().insert(x).count(
                                        m,
                                    ) by {
                                    assert(stored_keys(self.table1@).insert(y).count(m)
                                        == stored_keys(pre.table1@).insert(x).count(m));
                                    assert(stored_keys(self.table2@).count(m) == stored_keys(
                                        pre.table2@,
                                    ).insert(y).count(m));
                                }
                                assert(self.stored() =~= pre.stored().insert(x));
                                assert(old(self).chain(pre.table1@, pre.table2@, x, xi, fuel)
                                    == (self.table1@, self.table2@, true));
                            }
                            break;
                        },
                        Some(z) => {
                            if z == xi {
                                proof {
                                    assert(pre.idx2(z) == index2 as int);
                                    assert(self.table2@[self.idx2(xi)] == Some(xi));
                                    assert forall|k: usize| self.present(k) implies (
                                    old(self).present(k) || k == xi) by {
                                        assert((pre.present(k) || k == x) <==> (
                                        old(self).present(k) || k == xi));
                                    }
                                    assert forall|m: usize|
                                        self.stored().insert(y).count(m) == pre.stored().insert(
                                            x,
                                        ).count(m) by {
                                        assert(stored_keys(self.table1@).insert(y).count(m)
                                            == stored_keys(pre.table1@).insert(x).count(m));
                                    }
                                    assert(self.stored().insert(y) =~= pre.stored().insert(x));
                                    assert(old(self).stored().insert(xi).count(y) > 0
                                        && self.stored().insert(y) == old(self).stored().insert(
                                        xi,
                                    ));
                                    assert(old(self).chain(pre.table1@, pre.table2@, x, xi, fuel)
                                        == (self.table1@, self.table2@, false));
                                }
                                return Err("cycle, rehash");
                            } else {
                                self.table2[index2] = Some(y);
                                proof {
                                    assert(pre.idx2(z) == index2 as int);
                                    assert forall|k: usize| (self.present(k) || k == z) <==> (
                                    old(self).present(k) || k == xi) by {
                                        assert((pre.present(k) || k == x) <==> (
                                        old(self).present(k) || k == xi));
                                    }
                                    lemma_stored_keys_update(pre.table2@, index2 as int, y);
                                    assert forall|m: usize|
                                        self.stored().insert(z).count(m) == pre.stored().insert(
                                            x,
                                        ).count(m) by {
                                        assert(stored_keys(self.table1@).insert(y).count(m)
                                            == stored_keys(pre.table1@).insert(x).count(m));
                                        assert(stored_keys(self.table2@).insert(z).count(m)
                                            == stored_keys(pre.table2@).insert(y).count(m));
                                    }
                                    assert(self.stored().insert(z) =~= pre.stored().insert(x));
                                }
                                x = z;
                                rounds = rounds + 1;
                                if rounds == limit {
                                    proof {
                                        assert(self.present(xi));
                                        assert(old(self).stored().insert(xi).count(x) > 0
                                            && self.stored().insert(x) == old(
                                            self,
                                        ).stored().insert(xi));
                                        assert(fuel == 1);
                                        assert(old(self).chain(
                                            pre.table1@,
                                            pre.table2@,
                                            x0,
                                            xi,
                                            fuel,
                                        ) == (self.table1@, self.table2@, false));
                                    }
                                    return Err("cycle, rehash");
                                }
                                proof {
                                    assert(old(self).chain(pre.table1@, pre.table2@, x0, xi, fuel)
                                        == old(self).chain(self.table1@, self.table2@, x, xi, (
                                    fuel - 1) as nat));
                                }
                            }
                        },
                    }
                },
            }
        }
        Ok(())
    }

    /// Answers whether `x` is present: true exactly when `x` sits at
    /// `table1[hash1(x) % size]` or at `table2[hash2(x) % size]`. A pure
    /// read; total over all keys and all table states.
    pub fn lookup(&self, x: usize) -> (r: bool)
        requires
            self.wf(),
        ensures
            r == self.present(x),
    {
        let index1 = self.hash1.hash(x) % self.size;
        let index2 = self.hash2.hash(x) % self.size;
        let hit1 = match self.table1[index1] {
            Some(v) => v == x,
            None => false,
        };
        let hit2 = match self.table2[index2] {
            Some(v) => v == x,
            None => false,
        };
        hit1 || hit2
    }
}

/// Membership soundness. Across a successful insertion of key `j` — one
/// whose outcome relates the two states as `insert`'s success contract
/// says — every key keeps its membership, `j` is a member afterwards, and
/// a key that was absent and is not `j` is still absent. Since `lookup`
/// answers membership exactly, it returns true for every key successfully
/// inserted and not since displaced by a failed insertion, and false for
/// keys never inserted.
pub proof fn lemma_membership_after_insert<H1: HashFunction, H2: HashFunction>(
    pre: CuckooTable<H1, H2>,
    post: CuckooTable<H1, H2>,
    j: usize,
    k: usize,
)
    requires
        forall|m: usize| pre.present(m) || m == j <==> post.present(m),
    ensures
        post.present(j),
        pre.present(k) ==> post.present(k),
        (!pre.present(k) && k != j) ==> !post.present(k),
{
}

/// A vector of `sz` empty slots.
fn empty_slots(sz: usize) -> (r: Vec<Option<usize>>)
    ensures
        r@.len() == sz,
        forall|i: int| 0 <= i < sz ==> r@[i] is None,
{
    let mut v: Vec<Option<usize>> = Vec::new();
    let mut i: usize = 0;
    while i < sz
        invariant
            i <= sz,
            v@.len() == i,
            forall|j: int| 0 <= j < i ==> v@[j] is None,
        decreases sz - i,
    {
        v.push(None);
        i = i + 1;
    }
    v
}

} // verus!
