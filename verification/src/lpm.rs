//! The data plane's rule table: an exact-keyed store of `RuleStore`
//! values under `(group id, protocol, CIDR)` keys, answering point
//! queries by longest prefix match over the CIDR part.
//!
//! Writers use exact `insert` and `remove`; the per-packet reader asks
//! for the entry whose CIDR contains the destination address with the
//! greatest prefix length.
use vstd::prelude::*;
use crate::cidr::{Cidr, Contains, Ip};
use crate::rule_store::RuleStore;

verus! {

/// One row of the table.
#[derive(Clone, Copy, Debug)]
pub struct LpmEntry {
    pub id: u128,
    pub proto: u8,
    pub cidr: Cidr,
    pub store: RuleStore,
}

/// The index of the first entry with the given key, or -1.
pub open spec fn index_of(s: Seq<LpmEntry>, id: u128, proto: u8, cidr: Cidr) -> int
    decreases s.len(),
{
    if s.len() == 0 {
        -1
    } else if s[0].id == id && s[0].proto == proto && s[0].cidr == cidr {
        0
    } else {
        let r = index_of(s.drop_first(), id, proto, cidr);
        if r < 0 {
            -1
        } else {
            r + 1
        }
    }
}

pub open spec fn entry_matches(e: LpmEntry, id: u128, proto: u8, cidr: Cidr) -> bool {
    e.id == id && e.proto == proto && e.cidr == cidr
}

/// `index_of` finds the first match, and -1 means there is none.
pub proof fn lemma_index_of(s: Seq<LpmEntry>, id: u128, proto: u8, cidr: Cidr)
    ensures
        -1 <= index_of(s, id, proto, cidr) < s.len(),
        index_of(s, id, proto, cidr) >= 0 ==> entry_matches(s[index_of(s, id, proto, cidr)], id, proto, cidr)
            && (forall|j: int| 0 <= j < index_of(s, id, proto, cidr) ==> !entry_matches(#[trigger] s[j], id, proto, cidr)),
        index_of(s, id, proto, cidr) == -1 ==> (forall|j: int| 0 <= j < s.len() ==> !entry_matches(#[trigger] s[j], id, proto, cidr)),
    decreases s.len(),
{
    if s.len() > 0 {
        let rest = s.drop_first();
        lemma_index_of(rest, id, proto, cidr);
        assert(forall|j: int| 0 <= j < rest.len() ==> rest[j] == s[j + 1]);
        if !entry_matches(s[0], id, proto, cidr) {
            let r = index_of(rest, id, proto, cidr);
            if r >= 0 {
                assert(index_of(s, id, proto, cidr) == r + 1);
                assert(s[r + 1] == rest[r]);
                assert forall|j: int| 0 <= j < r + 1 implies !entry_matches(
                    #[trigger] s[j], id, proto, cidr) by {
                    if j > 0 {
                        assert(s[j] == rest[j - 1]);
                    }
                }
            } else {
                assert forall|j: int| 0 <= j < s.len() implies !entry_matches(
                    #[trigger] s[j], id, proto, cidr) by {
                    if j > 0 {
                        assert(s[j] == rest[j - 1]);
                    }
                }
            }
        }
    }
}

/// An entry matches a packet query when key fields agree and its CIDR
/// contains the destination.
pub open spec fn query_matches(e: LpmEntry, id: u128, proto: u8, ip: Ip) -> bool {
    e.id == id && e.proto == proto && e.cidr.contains_spec(&Cidr::spec_of_ip(ip))
}

/// An entry's key occurs only once.
pub open spec fn unique_keys(s: Seq<LpmEntry>) -> bool {
    forall|i: int, j: int|
        0 <= i < j < s.len() ==> !((#[trigger] s[i]).id == (#[trigger] s[j]).id && s[i].proto
            == s[j].proto && s[i].cidr == s[j].cidr)
}

/// The data plane's table of compiled rule stores.
#[derive(Debug)]
pub struct LpmStore {
    entries: Vec<LpmEntry>,
}

impl LpmStore {
    /// The rows, in insertion order.
    pub closed spec fn entries(&self) -> Seq<LpmEntry> {
        self.entries@
    }

    /// Keys unique, every CIDR valid and normalised, every store well
    /// formed.
    pub open spec fn wf(&self) -> bool {
        &&& unique_keys(self.entries())
        &&& forall|i: int|
            0 <= i < self.entries().len() ==> (#[trigger] self.entries()[i]).cidr.wf()
                && self.entries()[i].cidr.is_norm() && self.entries()[i].store.wf()
    }

    pub open spec fn spec_has_key(&self, id: u128, proto: u8, cidr: Cidr) -> bool {
        index_of(self.entries(), id, proto, cidr) >= 0
    }

    /// The store under an exact key.
    pub open spec fn spec_get(&self, id: u128, proto: u8, cidr: Cidr) -> Option<RuleStore> {
        LpmStore::ghost_get(self.entries(), id, proto, cidr)
    }

    /// The store under an exact key, of a row sequence.
    pub open spec fn ghost_get(s: Seq<LpmEntry>, id: u128, proto: u8, cidr: Cidr) -> Option<RuleStore> {
        let i = index_of(s, id, proto, cidr);
        if i >= 0 {
            Some(s[i].store)
        } else {
            None
        }
    }

    pub fn new() -> (r: LpmStore)
        ensures
            r.wf(),
            r.entries() =~= Seq::<LpmEntry>::empty(),
    {
        LpmStore { entries: Vec::new() }
    }

    pub fn len(&self) -> (n: usize)
        ensures
            n == self.entries().len(),
    {
        self.entries.len()
    }

    /// Every row as plain values, for mirroring into the kernel map.
    pub fn export(&self) -> (r: Vec<(u128, u8, Cidr, RuleStore)>)
        ensures
            r@.len() == self.entries().len(),
            forall|i: int|
                0 <= i < r@.len() ==> (#[trigger] r@[i]).0 == self.entries()[i].id && r@[i].1
                    == self.entries()[i].proto && r@[i].2 == self.entries()[i].cidr && r@[i].3
                    == self.entries()[i].store,
    {
        let mut r: Vec<(u128, u8, Cidr, RuleStore)> = Vec::new();
        let mut i: usize = 0;
        while i < self.entries.len()
            invariant
                i <= self.entries().len(),
                r@.len() == i,
                forall|j: int|
                    0 <= j < i ==> (#[trigger] r@[j]).0 == self.entries()[j].id && r@[j].1
                        == self.entries()[j].proto && r@[j].2 == self.entries()[j].cidr && r@[j].3
                        == self.entries()[j].store,
            decreases self.entries().len() - i,
        {
            let e = &self.entries[i];
            r.push((e.id, e.proto, e.cidr, e.store));
            i = i + 1;
        }
        r
    }

    fn find(&self, id: u128, proto: u8, cidr: &Cidr) -> (r: Option<usize>)
        ensures
            match r {
                Some(i) => i == index_of(self.entries(), id, proto, *cidr),
                None => index_of(self.entries(), id, proto, *cidr) == -1,
            },
    {
        proof {
            lemma_index_of(self.entries(), id, proto, *cidr);
        }
        let mut i: usize = 0;
        while i < self.entries.len()
            invariant
                i <= self.entries().len(),
                forall|j: int| 0 <= j < i ==> !entry_matches(#[trigger] self.entries()[j], id, proto, *cidr),
                -1 <= index_of(self.entries(), id, proto, *cidr) < self.entries().len(),
                index_of(self.entries(), id, proto, *cidr) >= 0 ==> entry_matches(
                    self.entries()[index_of(self.entries(), id, proto, *cidr)], id, proto, *cidr)
                    && (forall|j: int| 0 <= j < index_of(self.entries(), id, proto, *cidr)
                        ==> !entry_matches(#[trigger] self.entries()[j], id, proto, *cidr)),
                index_of(self.entries(), id, proto, *cidr) == -1 ==> (forall|j: int|
                    0 <= j < self.entries().len() ==> !entry_matches(#[trigger] self.entries()[j], id, proto, *cidr)),
            decreases self.entries().len() - i,
        {
            let e = &self.entries[i];
            if e.id == id && e.proto == proto && e.cidr == *cidr {
                proof {
                    let r = index_of(self.entries(), id, proto, *cidr);
                    assert(entry_matches(self.entries()[i as int], id, proto, *cidr));
                    if r < i {
                        assert(!entry_matches(self.entries()[r], id, proto, *cidr));
                    }
                }
                return Some(i);
            }
            i = i + 1;
        }
        None
    }

    /// Does the table hold this exact key?
    pub fn has_key(&self, id: u128, proto: u8, cidr: &Cidr) -> (r: bool)
        ensures
            r == self.spec_has_key(id, proto, *cidr),
    {
        self.find(id, proto, cidr).is_some()
    }

    /// The store under this exact key, if any.
    pub fn get(&self, id: u128, proto: u8, cidr: &Cidr) -> (r: Option<RuleStore>)
        ensures
            r == self.spec_get(id, proto, *cidr),
    {
        proof {
            lemma_index_of(self.entries(), id, proto, *cidr);
        }
        match self.find(id, proto, cidr) {
            Some(i) => Some(self.entries[i].store),
            None => None,
        }
    }

    /// Writes a store under an exact key, replacing in place or
    /// appending a new row.
    pub fn insert(&mut self, id: u128, proto: u8, cidr: Cidr, store: RuleStore) -> (i: Ghost<int>)
        requires
            old(self).wf(),
            cidr.wf(),
            cidr.is_norm(),
            store.wf(),
        ensures
            final(self).wf(),
            i@ == index_of(old(self).entries(), id, proto, cidr),
            i@ >= 0 ==> final(self).entries() == old(self).entries().update(
                i@,
                LpmEntry { id, proto, cidr, store },
            ),
            i@ < 0 ==> final(self).entries() == old(self).entries().push(
                LpmEntry { id, proto, cidr, store },
            ),
            forall|id2: u128, proto2: u8, cidr2: Cidr|
                #[trigger] final(self).spec_get(id2, proto2, cidr2) == if id2 == id && proto2
                    == proto && cidr2 == cidr {
                    Some(store)
                } else {
                    old(self).spec_get(id2, proto2, cidr2)
                },
    {
        let entry = LpmEntry { id, proto, cidr, store };
        proof {
            lemma_index_of(self.entries(), id, proto, cidr);
        }
        let found = self.find(id, proto, &cidr);
        let ghost pre = self.entries();
        match found {
            Some(i) => {
                self.entries.set(i, entry);
                proof {
                    lemma_index_of(pre, id, proto, cidr);
                    lemma_update_spec_get(pre, self.entries(), i as int, entry);
                    let post = self.entries();
                    assert forall|id2: u128, proto2: u8, cidr2: Cidr|
                        #[trigger] self.spec_get(id2, proto2, cidr2) == if id2 == id && proto2
                            == proto && cidr2 == cidr {
                            Some(store)
                        } else {
                            LpmStore::ghost_get(pre, id2, proto2, cidr2)
                        } by {
                        lemma_index_of(pre, id2, proto2, cidr2);
                        let idx = index_of(pre, id2, proto2, cidr2);
                        if id2 == id && proto2 == proto && cidr2 == cidr {
                            assert(idx == i);
                        } else {
                            if idx >= 0 {
                                assert(!entry_matches(pre[i as int], id2, proto2, cidr2));
                                assert(idx != i);
                                assert(post[idx] == pre[idx]);
                            }
                        }
                    }
                }
                Ghost(i as int)
            },
            None => {
                self.entries.push(entry);
                proof {
                    lemma_index_of(pre, id, proto, cidr);
                    lemma_push_spec_get(pre, self.entries(), entry);
                    let post = self.entries();
                    assert forall|id2: u128, proto2: u8, cidr2: Cidr|
                        #[trigger] self.spec_get(id2, proto2, cidr2) == if id2 == id && proto2
                            == proto && cidr2 == cidr {
                            Some(store)
                        } else {
                            LpmStore::ghost_get(pre, id2, proto2, cidr2)
                        } by {
                        lemma_index_of(pre, id2, proto2, cidr2);
                        if id2 == id && proto2 == proto && cidr2 == cidr {
                            assert(index_of(post, id2, proto2, cidr2) == pre.len());
                            assert(post[pre.len() as int] == entry);
                        } else {
                            let idx = index_of(pre, id2, proto2, cidr2);
                            if idx >= 0 {
                                assert(post[idx] == pre[idx]);
                            }
                        }
                    }
                }
                Ghost(-1)
            },
        }
    }

    /// Removes an exact key if present.
    pub fn remove(&mut self, id: u128, proto: u8, cidr: &Cidr) -> (i: Ghost<int>)
        requires
            old(self).wf(),
        ensures
            final(self).wf(),
            i@ == index_of(old(self).entries(), id, proto, *cidr),
            i@ >= 0 ==> final(self).entries() == old(self).entries().remove(i@),
            i@ < 0 ==> final(self).entries() == old(self).entries(),
            forall|id2: u128, proto2: u8, cidr2: Cidr|
                #[trigger] final(self).spec_get(id2, proto2, cidr2) == if id2 == id && proto2
                    == proto && cidr2 == *cidr {
                    None::<RuleStore>
                } else {
                    old(self).spec_get(id2, proto2, cidr2)
                },
    {
        proof {
            lemma_index_of(self.entries(), id, proto, *cidr);
        }
        let found = self.find(id, proto, cidr);
        let ghost pre = self.entries();
        match found {
            Some(i) => {
                self.entries.remove(i);
                proof {
                    lemma_index_of(pre, id, proto, *cidr);
                    lemma_remove_spec_get(pre, self.entries(), i as int);
                }
                Ghost(i as int)
            },
            None => {
                proof {
                    lemma_index_of(pre, id, proto, *cidr);
                    assert forall|id2: u128, proto2: u8, cidr2: Cidr|
                        #[trigger] self.spec_get(id2, proto2, cidr2) == if id2 == id && proto2
                            == proto && cidr2 == *cidr {
                            None::<RuleStore>
                        } else {
                            self.spec_get(id2, proto2, cidr2)
                        } by {
                        if id2 == id && proto2 == proto && cidr2 == *cidr {
                            lemma_index_of(pre, id2, proto2, cidr2);
                        }
                    }
                }
                Ghost(-1)
            },
        }
    }

    pub open spec fn spec_any_match(&self, id: u128, proto: u8, ip: Ip) -> bool {
        exists|i: int|
            0 <= i < self.entries().len() && query_matches(#[trigger] self.entries()[i], id, proto, ip)
    }

    /// The longest-prefix-match lookup: among the entries whose CIDR
    /// contains the destination under this group and protocol, the one
    /// with the greatest prefix length.
    pub fn lookup(&self, id: u128, proto: u8, ip: &Ip) -> (r: Option<RuleStore>)
        requires
            self.wf(),
        ensures
            r is Some <==> self.spec_any_match(id, proto, *ip),
            match r {
                Some(st) => exists|i: int|
                    0 <= i < self.entries().len() && query_matches(#[trigger] self.entries()[i], id, proto, *ip)
                        && self.entries()[i].store == st && (forall|j: int|
                        0 <= j < self.entries().len() && query_matches(#[trigger] self.entries()[j], id, proto, *ip)
                            ==> self.entries()[j].cidr.prefix_spec() <= self.entries()[i].cidr.prefix_spec()),
                None => true,
            },
    {
        let query = Cidr::of_ip(ip);
        let mut best: Option<usize> = None;
        let mut i: usize = 0;
        while i < self.entries.len()
            invariant
                query == Cidr::spec_of_ip(*ip),
                i <= self.entries().len(),
                match best {
                    Some(b) => b < i && query_matches(self.entries()[b as int], id, proto, *ip)
                        && (forall|j: int|
                        0 <= j < i && query_matches(#[trigger] self.entries()[j], id, proto, *ip)
                            ==> self.entries()[j].cidr.prefix_spec()
                            <= self.entries()[b as int].cidr.prefix_spec()),
                    None => forall|j: int|
                        0 <= j < i ==> !query_matches(#[trigger] self.entries()[j], id, proto, *ip),
                },
            decreases self.entries().len() - i,
        {
            let e = &self.entries[i];
            if e.id == id && e.proto == proto && e.cidr.contains(&query) {
                match best {
                    Some(b) => {
                        if self.entries[b].cidr.prefix() < self.entries[i].cidr.prefix() {
                            best = Some(i);
                        }
                    },
                    None => {
                        best = Some(i);
                    },
                }
            }
            i = i + 1;
        }
        match best {
            Some(b) => Some(self.entries[b].store),
            None => None,
        }
    }
}

/// Replacing one row changes only that row's key.
proof fn lemma_update_spec_get(pre: Seq<LpmEntry>, post: Seq<LpmEntry>, i: int, entry: LpmEntry)
    requires
        unique_keys(pre),
        0 <= i < pre.len(),
        entry_matches(pre[i], entry.id, entry.proto, entry.cidr),
        post == pre.update(i, entry),
    ensures
        unique_keys(post),
        forall|id2: u128, proto2: u8, cidr2: Cidr|
            #[trigger] index_of(post, id2, proto2, cidr2) == index_of(pre, id2, proto2, cidr2),
        forall|j: int| 0 <= j < post.len() && j != i ==> post[j] == pre[j],
    decreases pre.len(),
{
    assert(forall|j: int| 0 <= j < post.len() && j != i ==> post[j] == pre[j]);
    assert(unique_keys(post)) by {
        assert(forall|j: int|
            0 <= j < post.len() ==> (#[trigger] post[j]).id == pre[j].id && post[j].proto
                == pre[j].proto && post[j].cidr == pre[j].cidr);
    }
    assert forall|id2: u128, proto2: u8, cidr2: Cidr|
        #[trigger] index_of(post, id2, proto2, cidr2) == index_of(pre, id2, proto2, cidr2) by {
        lemma_index_of_same_keys(pre, post, id2, proto2, cidr2);
    }
}

/// Two tables with pointwise equal keys index alike.
proof fn lemma_index_of_same_keys(a: Seq<LpmEntry>, b: Seq<LpmEntry>, id: u128, proto: u8, cidr: Cidr)
    requires
        a.len() == b.len(),
        forall|j: int|
            0 <= j < a.len() ==> (#[trigger] b[j]).id == a[j].id && b[j].proto == a[j].proto
                && b[j].cidr == a[j].cidr,
    ensures
        index_of(a, id, proto, cidr) == index_of(b, id, proto, cidr),
    decreases a.len(),
{
    if a.len() > 0 {
        let ra = a.drop_first();
        let rb = b.drop_first();
        assert(forall|j: int| 0 <= j < ra.len() ==> ra[j] == a[j + 1] && rb[j] == b[j + 1]);
        lemma_index_of_same_keys(ra, rb, id, proto, cidr);
    }
}

/// Appending a new key leaves every other key's row in place.
proof fn lemma_push_spec_get(pre: Seq<LpmEntry>, post: Seq<LpmEntry>, entry: LpmEntry)
    requires
        unique_keys(pre),
        index_of(pre, entry.id, entry.proto, entry.cidr) == -1,
        post == pre.push(entry),
    ensures
        unique_keys(post),
        index_of(post, entry.id, entry.proto, entry.cidr) == pre.len(),
        forall|id2: u128, proto2: u8, cidr2: Cidr|
            !(id2 == entry.id && proto2 == entry.proto && cidr2 == entry.cidr)
                ==> #[trigger] index_of(post, id2, proto2, cidr2) == index_of(pre, id2, proto2, cidr2),
    decreases pre.len(),
{
    lemma_index_of(pre, entry.id, entry.proto, entry.cidr);
    assert(unique_keys(post)) by {
        assert(forall|j: int| 0 <= j < pre.len() ==> post[j] == pre[j]);
        assert(post[pre.len() as int] == entry);
        assert(forall|j: int|
            0 <= j < pre.len() ==> !entry_matches(#[trigger] pre[j], entry.id, entry.proto, entry.cidr));
    }
    lemma_index_of_push(pre, entry, entry.id, entry.proto, entry.cidr);
    assert forall|id2: u128, proto2: u8, cidr2: Cidr|
        !(id2 == entry.id && proto2 == entry.proto && cidr2 == entry.cidr)
            implies #[trigger] index_of(post, id2, proto2, cidr2) == index_of(pre, id2, proto2, cidr2) by {
        lemma_index_of_push(pre, entry, id2, proto2, cidr2);
    }
}

/// How `index_of` behaves across a push.
proof fn lemma_index_of_push(pre: Seq<LpmEntry>, entry: LpmEntry, id: u128, proto: u8, cidr: Cidr)
    ensures
        entry_matches(entry, id, proto, cidr) && index_of(pre, id, proto, cidr) == -1
            ==> index_of(pre.push(entry), id, proto, cidr) == pre.len(),
        !entry_matches(entry, id, proto, cidr) || index_of(pre, id, proto, cidr) >= 0
            ==> index_of(pre.push(entry), id, proto, cidr) == index_of(pre, id, proto, cidr),
    decreases pre.len(),
{
    let post = pre.push(entry);
    if pre.len() == 0 {
        assert(post.len() == 1);
        assert(post[0] == entry);
        assert(post.drop_first() =~= Seq::<LpmEntry>::empty());
        lemma_index_of(post.drop_first(), id, proto, cidr);
    } else {
        assert(post[0] == pre[0]);
        assert(post.drop_first() =~= pre.drop_first().push(entry));
        lemma_index_of_push(pre.drop_first(), entry, id, proto, cidr);
        lemma_index_of(pre.drop_first(), id, proto, cidr);
    }
}

/// How `index_of` behaves across removing one row.
proof fn lemma_index_of_remove(pre: Seq<LpmEntry>, i: int, id: u128, proto: u8, cidr: Cidr)
    requires
        unique_keys(pre),
        0 <= i < pre.len(),
    ensures
        entry_matches(pre[i], id, proto, cidr) ==> index_of(pre.remove(i), id, proto, cidr) == -1,
        !entry_matches(pre[i], id, proto, cidr) ==> (index_of(pre.remove(i), id, proto, cidr) >= 0
            <==> index_of(pre, id, proto, cidr) >= 0) && (index_of(pre, id, proto, cidr) >= 0
            ==> pre.remove(i)[index_of(pre.remove(i), id, proto, cidr)] == pre[index_of(pre, id, proto, cidr)]),
    decreases pre.len(),
{
    let post = pre.remove(i);
    lemma_index_of(pre, id, proto, cidr);
    lemma_index_of(post, id, proto, cidr);
    if entry_matches(pre[i], id, proto, cidr) {
        // the removed row was the only match
        assert forall|j: int| 0 <= j < post.len() implies !entry_matches(#[trigger] post[j], id, proto, cidr) by {
            if j < i {
                assert(post[j] == pre[j]);
            } else {
                assert(post[j] == pre[j + 1]);
            }
        }
        if index_of(post, id, proto, cidr) >= 0 {
            assert(entry_matches(post[index_of(post, id, proto, cidr)], id, proto, cidr));
        }
    } else {
        let rp = index_of(pre, id, proto, cidr);
        let rq = index_of(post, id, proto, cidr);
        if rp >= 0 {
            let jj: int = if rp < i {
                rp
            } else {
                rp - 1
            };
            assert(post[jj] == pre[rp]);
            assert(entry_matches(post[jj], id, proto, cidr));
            if rq < 0 {
                assert(!entry_matches(post[jj], id, proto, cidr));
            }
            assert(rq >= 0);
            // both point at a matching row; keys are unique, so the rows agree
            let orig: int = if rq < i {
                rq
            } else {
                rq + 1
            };
            assert(post[rq] == pre[orig]);
            assert(entry_matches(pre[orig], id, proto, cidr));
            assert(entry_matches(pre[rp], id, proto, cidr));
            if orig != rp {
                assert(!(pre[orig].id == pre[rp].id && pre[orig].proto == pre[rp].proto
                    && pre[orig].cidr == pre[rp].cidr));
            }
        } else {
            if rq >= 0 {
                let orig: int = if rq < i {
                    rq
                } else {
                    rq + 1
                };
                assert(post[rq] == pre[orig]);
                assert(!entry_matches(pre[orig], id, proto, cidr));
            }
        }
    }
}

/// Removing one row changes only that row's key.
proof fn lemma_remove_spec_get(pre: Seq<LpmEntry>, post: Seq<LpmEntry>, i: int)
    requires
        unique_keys(pre),
        0 <= i < pre.len(),
        post == pre.remove(i),
    ensures
        unique_keys(post),
        index_of(post, pre[i].id, pre[i].proto, pre[i].cidr) == -1,
        forall|id2: u128, proto2: u8, cidr2: Cidr|
            !(id2 == pre[i].id && proto2 == pre[i].proto && cidr2 == pre[i].cidr) ==> ((
            #[trigger] index_of(post, id2, proto2, cidr2) >= 0 <==> index_of(pre, id2, proto2, cidr2) >= 0)
                && (index_of(pre, id2, proto2, cidr2) >= 0 ==> post[index_of(post, id2, proto2, cidr2)]
                == pre[index_of(pre, id2, proto2, cidr2)])),
{
    assert(unique_keys(post)) by {
        assert forall|a: int, b: int| 0 <= a < b < post.len() implies !((#[trigger] post[a]).id == (
        #[trigger] post[b]).id && post[a].proto == post[b].proto && post[a].cidr == post[b].cidr) by {
            let a2: int = if a < i {
                a
            } else {
                a + 1
            };
            let b2: int = if b < i {
                b
            } else {
                b + 1
            };
            assert(post[a] == pre[a2] && post[b] == pre[b2]);
        }
    }
    lemma_index_of_remove(pre, i, pre[i].id, pre[i].proto, pre[i].cidr);
    assert forall|id2: u128, proto2: u8, cidr2: Cidr|
        !(id2 == pre[i].id && proto2 == pre[i].proto && cidr2 == pre[i].cidr) implies ((
    #[trigger] index_of(post, id2, proto2, cidr2) >= 0 <==> index_of(pre, id2, proto2, cidr2) >= 0)
        && (index_of(pre, id2, proto2, cidr2) >= 0 ==> post[index_of(post, id2, proto2, cidr2)]
        == pre[index_of(pre, id2, proto2, cidr2)])) by {
        assert(!entry_matches(pre[i], id2, proto2, cidr2));
        lemma_index_of_remove(pre, i, id2, proto2, cidr2);
    }
}

} // verus!
