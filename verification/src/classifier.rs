//! The source classifier: which group id a source address belongs to.
//!
//! The classifier owns the authoritative group-id ↔ addresses map and
//! mirrors it into the exact-keyed source table the data plane reads on
//! every packet.
use vstd::prelude::*;
use crate::cidr::Ip;
use crate::error::FirewallError;

verus! {

/// The index of the first row for this source address, or -1.
pub open spec fn src_index_of(s: Seq<(Ip, u128)>, ip: Ip) -> int
    decreases s.len(),
{
    if s.len() == 0 {
        -1
    } else if s[0].0 == ip {
        0
    } else {
        let r = src_index_of(s.drop_first(), ip);
        if r < 0 {
            -1
        } else {
            r + 1
        }
    }
}

pub proof fn lemma_src_index_of(s: Seq<(Ip, u128)>, ip: Ip)
    ensures
        -1 <= src_index_of(s, ip) < s.len(),
        src_index_of(s, ip) >= 0 ==> s[src_index_of(s, ip)].0 == ip && (forall|j: int|
            0 <= j < src_index_of(s, ip) ==> (#[trigger] s[j]).0 != ip),
        src_index_of(s, ip) == -1 ==> (forall|j: int| 0 <= j < s.len() ==> (#[trigger] s[j]).0 != ip),
    decreases s.len(),
{
    if s.len() > 0 {
        let rest = s.drop_first();
        lemma_src_index_of(rest, ip);
        assert(forall|j: int| 0 <= j < rest.len() ==> rest[j] == s[j + 1]);
        if s[0].0 != ip {
            let r = src_index_of(rest, ip);
            if r >= 0 {
                assert(s[r + 1] == rest[r]);
                assert forall|j: int| 0 <= j < r + 1 implies (#[trigger] s[j]).0 != ip by {
                    if j > 0 {
                        assert(s[j] == rest[j - 1]);
                    }
                }
            } else {
                assert forall|j: int| 0 <= j < s.len() implies (#[trigger] s[j]).0 != ip by {
                    if j > 0 {
                        assert(s[j] == rest[j - 1]);
                    }
                }
            }
        }
    }
}

/// The data plane's source table: each source address mapped to the
/// group id it was assigned.
#[derive(Debug)]
pub struct SourceStore {
    entries: Vec<(Ip, u128)>,
}

impl SourceStore {
    pub closed spec fn entries(&self) -> Seq<(Ip, u128)> {
        self.entries@
    }

    /// Each address appears at most once.
    pub open spec fn wf(&self) -> bool {
        forall|i: int, j: int|
            0 <= i < j < self.entries().len() ==> (#[trigger] self.entries()[i]).0 != (
            #[trigger] self.entries()[j]).0
    }

    /// The group id assigned to an address, if any.
    pub open spec fn spec_get(&self, ip: Ip) -> Option<u128> {
        let i = src_index_of(self.entries(), ip);
        if i >= 0 {
            Some(self.entries()[i].1)
        } else {
            None
        }
    }

    pub fn new() -> (r: SourceStore)
        ensures
            r.wf(),
            r.entries() =~= Seq::<(Ip, u128)>::empty(),
    {
        SourceStore { entries: Vec::new() }
    }

    /// Every assignment as plain values, for mirroring into the kernel
    /// map.
    pub fn export(&self) -> (r: Vec<(Ip, u128)>)
        ensures
            r@ == self.entries(),
    {
        let mut r: Vec<(Ip, u128)> = Vec::new();
        let mut i: usize = 0;
        while i < self.entries.len()
            invariant
                i <= self.entries().len(),
                r@ =~= self.entries().take(i as int),
            decreases self.entries().len() - i,
        {
            r.push(self.entries[i]);
            i = i + 1;
        }
        proof {
            assert(self.entries().take(self.entries().len() as int) =~= self.entries());
        }
        r
    }

    fn find(&self, ip: &Ip) -> (r: Option<usize>)
        ensures
            match r {
                Some(i) => i == src_index_of(self.entries(), *ip),
                None => src_index_of(self.entries(), *ip) == -1,
            },
    {
        proof {
            lemma_src_index_of(self.entries(), *ip);
        }
        let mut i: usize = 0;
        while i < self.entries.len()
            invariant
                i <= self.entries().len(),
                forall|j: int| 0 <= j < i ==> (#[trigger] self.entries()[j]).0 != *ip,
                -1 <= src_index_of(self.entries(), *ip) < self.entries().len(),
                src_index_of(self.entries(), *ip) >= 0 ==> self.entries()[src_index_of(
                    self.entries(),
                    *ip,
                )].0 == *ip && (forall|j: int|
                    0 <= j < src_index_of(self.entries(), *ip) ==> (#[trigger] self.entries()[j]).0
                        != *ip),
                src_index_of(self.entries(), *ip) == -1 ==> (forall|j: int|
                    0 <= j < self.entries().len() ==> (#[trigger] self.entries()[j]).0 != *ip),
            decreases self.entries().len() - i,
        {
            if self.entries[i].0 == *ip {
                proof {
                    let r = src_index_of(self.entries(), *ip);
                    if r < i {
                        assert(self.entries()[r].0 != *ip);
                    }
                }
                return Some(i);
            }
            i = i + 1;
        }
        None
    }

    /// Reads the group id assigned to a source address.
    pub fn get(&self, ip: &Ip) -> (r: Option<u128>)
        ensures
            r == self.spec_get(*ip),
    {
        proof {
            lemma_src_index_of(self.entries(), *ip);
        }
        match self.find(ip) {
            Some(i) => Some(self.entries[i].1),
            None => None,
        }
    }

    /// Maps an address to a group id, overwriting any earlier
    /// assignment.
    pub fn insert(&mut self, ip: Ip, id: u128)
        requires
            old(self).wf(),
        ensures
            final(self).wf(),
            forall|x: Ip|
                #[trigger] final(self).spec_get(x) == if x == ip {
                    Some(id)
                } else {
                    old(self).spec_get(x)
                },
    {
        proof {
            lemma_src_index_of(self.entries(), ip);
        }
        let found = self.find(&ip);
        let ghost pre = self.entries();
        match found {
            Some(i) => {
                self.entries.set(i, (ip, id));
                proof {
                    let post = self.entries();
                    assert forall|x: Ip|
                        #[trigger] self.spec_get(x) == if x == ip {
                            Some(id)
                        } else {
                            SourceStore::ghost_get(pre, x)
                        } by {
                        lemma_src_index_of(pre, x);
                        lemma_src_index_of_same_keys(pre, post, x);
                        let idx = src_index_of(pre, x);
                        if x == ip {
                            assert(idx == i);
                        } else {
                            if idx >= 0 {
                                assert(pre[i as int].0 == ip);
                                assert(idx != i);
                                assert(post[idx] == pre[idx]);
                            }
                        }
                    }
                }
            },
            None => {
                self.entries.push((ip, id));
                proof {
                    let post = self.entries();
                    lemma_src_index_of(pre, ip);
                    assert(self.wf()) by {
                        assert(forall|j: int| 0 <= j < pre.len() ==> post[j] == pre[j]);
                        assert(post[pre.len() as int] == (ip, id));
                        assert(forall|j: int| 0 <= j < pre.len() ==> (#[trigger] pre[j]).0 != ip);
                    }
                    assert forall|x: Ip|
                        #[trigger] self.spec_get(x) == if x == ip {
                            Some(id)
                        } else {
                            SourceStore::ghost_get(pre, x)
                        } by {
                        lemma_src_index_of(pre, x);
                        lemma_src_index_of_push(pre, (ip, id), x);
                        if x == ip {
                            assert(post[pre.len() as int] == (ip, id));
                        } else {
                            let idx = src_index_of(pre, x);
                            if idx >= 0 {
                                assert(post[idx] == pre[idx]);
                            }
                        }
                    }
                }
            },
        }
    }

    /// Drops an address's assignment if it has one.
    pub fn remove(&mut self, ip: &Ip)
        requires
            old(self).wf(),
        ensures
            final(self).wf(),
            forall|x: Ip|
                #[trigger] final(self).spec_get(x) == if x == *ip {
                    None::<u128>
                } else {
                    old(self).spec_get(x)
                },
    {
        proof {
            lemma_src_index_of(self.entries(), *ip);
        }
        let found = self.find(ip);
        let ghost pre = self.entries();
        match found {
            Some(i) => {
                self.entries.remove(i);
                proof {
                    let post = self.entries();
                    assert(self.wf()) by {
                        assert forall|a: int, b: int| 0 <= a < b < post.len() implies (
                        #[trigger] post[a]).0 != (#[trigger] post[b]).0 by {
                            let a2: int = if a < i {
                                a
                            } else {
                                a + 1
                            };
                            let b2: int = if b < i {
                                b
                            } else {
                                b + 1
                            };
                            assert(post[a] == pre[a2] && post[b] == pre[b2]);
                        }
                    }
                    assert forall|x: Ip|
                        #[trigger] self.spec_get(x) == if x == *ip {
                            None::<u128>
                        } else {
                            SourceStore::ghost_get(pre, x)
                        } by {
                        lemma_src_index_of(pre, x);
                        lemma_src_index_of(post, x);
                        if x == *ip {
                            assert forall|j: int| 0 <= j < post.len() implies (
                            #[trigger] post[j]).0 != x by {
                                if j < i {
                                    assert(post[j] == pre[j]);
                                    assert(pre[j].0 != x);
                                } else {
                                    assert(post[j] == pre[j + 1]);
                                    assert(pre[i as int].0 == x);
                                }
                            }
                            if src_index_of(post, x) >= 0 {
                                assert(post[src_index_of(post, x)].0 == x);
                            }
                        } else {
                            let rp = src_index_of(pre, x);
                            let rq = src_index_of(post, x);
                            if rp >= 0 {
                                let jj: int = if rp < i {
                                    rp
                                } else {
                                    rp - 1
                                };
                                assert(post[jj] == pre[rp]);
                                if rq < 0 {
                                    assert(post[jj].0 != x);
                                }
                                let orig: int = if rq < i {
                                    rq
                                } else {
                                    rq + 1
                                };
                                assert(post[rq] == pre[orig]);
                                if orig != rp {
                                    assert(pre[orig].0 != pre[rp].0);
                                }
                            } else {
                                if rq >= 0 {
                                    let orig: int = if rq < i {
                                        rq
                                    } else {
                                        rq + 1
                                    };
                                    assert(post[rq] == pre[orig]);
                                    assert(pre[orig].0 != x);
                                }
                            }
                        }
                    }
                }
            },
            None => {
                proof {
                    assert forall|x: Ip|
                        #[trigger] self.spec_get(x) == if x == *ip {
                            None::<u128>
                        } else {
                            SourceStore::ghost_get(pre, x)
                        } by {
                        if x == *ip {
                            lemma_src_index_of(pre, x);
                        }
                    }
                }
            },
        }
    }

    pub open spec fn ghost_get(s: Seq<(Ip, u128)>, ip: Ip) -> Option<u128> {
        let i = src_index_of(s, ip);
        if i >= 0 {
            Some(s[i].1)
        } else {
            None
        }
    }
}

proof fn lemma_src_index_of_same_keys(a: Seq<(Ip, u128)>, b: Seq<(Ip, u128)>, ip: Ip)
    requires
        a.len() == b.len(),
        forall|j: int| 0 <= j < a.len() ==> (#[trigger] b[j]).0 == a[j].0,
    ensures
        src_index_of(a, ip) == src_index_of(b, ip),
    decreases a.len(),
{
    if a.len() > 0 {
        let ra = a.drop_first();
        let rb = b.drop_first();
        assert(forall|j: int| 0 <= j < ra.len() ==> ra[j] == a[j + 1] && rb[j] == b[j + 1]);
        lemma_src_index_of_same_keys(ra, rb, ip);
    }
}

proof fn lemma_src_index_of_push(pre: Seq<(Ip, u128)>, entry: (Ip, u128), ip: Ip)
    ensures
        entry.0 == ip && src_index_of(pre, ip) == -1 ==> src_index_of(pre.push(entry), ip)
            == pre.len(),
        entry.0 != ip || src_index_of(pre, ip) >= 0 ==> src_index_of(pre.push(entry), ip)
            == src_index_of(pre, ip),
    decreases pre.len(),
{
    let post = pre.push(entry);
    if pre.len() == 0 {
        assert(post[0] == entry);
        assert(post.drop_first() =~= Seq::<(Ip, u128)>::empty());
        lemma_src_index_of(post.drop_first(), ip);
    } else {
        assert(post[0] == pre[0]);
        assert(post.drop_first() =~= pre.drop_first().push(entry));
        lemma_src_index_of_push(pre.drop_first(), entry, ip);
        lemma_src_index_of(pre.drop_first(), ip);
    }
}

/// One group: its id and the addresses assigned to it.
#[derive(Debug, Clone)]
pub struct Group {
    pub id: u128,
    pub ips: Vec<Ip>,
}

/// The authoritative group map, mirrored into a `SourceStore`.
#[derive(Debug)]
pub struct Classifier {
    groups: Vec<Group>,
}

/// The index of the group with this id, or -1.
pub open spec fn group_index_of(s: Seq<Group>, id: u128) -> int
    decreases s.len(),
{
    if s.len() == 0 {
        -1
    } else if s[0].id == id {
        0
    } else {
        let r = group_index_of(s.drop_first(), id);
        if r < 0 {
            -1
        } else {
            r + 1
        }
    }
}

pub proof fn lemma_group_index_of(s: Seq<Group>, id: u128)
    ensures
        -1 <= group_index_of(s, id) < s.len(),
        group_index_of(s, id) >= 0 ==> s[group_index_of(s, id)].id == id && (forall|j: int|
            0 <= j < group_index_of(s, id) ==> (#[trigger] s[j]).id != id),
        group_index_of(s, id) == -1 ==> (forall|j: int| 0 <= j < s.len() ==> (#[trigger] s[j]).id != id),
    decreases s.len(),
{
    if s.len() > 0 {
        let rest = s.drop_first();
        lemma_group_index_of(rest, id);
        assert(forall|j: int| 0 <= j < rest.len() ==> rest[j] == s[j + 1]);
        if s[0].id != id {
            let r = group_index_of(rest, id);
            if r >= 0 {
                assert(s[r + 1] == rest[r]);
                assert forall|j: int| 0 <= j < r + 1 implies (#[trigger] s[j]).id != id by {
                    if j > 0 {
                        assert(s[j] == rest[j - 1]);
                    }
                }
            } else {
                assert forall|j: int| 0 <= j < s.len() implies (#[trigger] s[j]).id != id by {
                    if j > 0 {
                        assert(s[j] == rest[j - 1]);
                    }
                }
            }
        }
    }
}

impl Classifier {
    pub closed spec fn groups(&self) -> Seq<Group> {
        self.groups@
    }

    /// Group ids unique and never 0; no group empty; no address listed
    /// twice within a group.
    pub open spec fn wf(&self) -> bool {
        &&& forall|i: int, j: int|
            0 <= i < j < self.groups().len() ==> (#[trigger] self.groups()[i]).id != (
            #[trigger] self.groups()[j]).id
        &&& forall|i: int|
            0 <= i < self.groups().len() ==> (#[trigger] self.groups()[i]).id != 0
                && self.groups()[i].ips@.len() > 0 && (forall|a: int, b: int|
                0 <= a < b < self.groups()[i].ips@.len() ==> (#[trigger] self.groups()[i].ips@[a])
                    != (#[trigger] self.groups()[i].ips@[b]))
    }

    pub open spec fn spec_has_group(&self, id: u128) -> bool {
        group_index_of(self.groups(), id) >= 0
    }

    /// The addresses assigned to a group.
    pub open spec fn spec_ips_of(&self, id: u128) -> Seq<Ip> {
        if group_index_of(self.groups(), id) >= 0 {
            self.groups()[group_index_of(self.groups(), id)].ips@
        } else {
            Seq::empty()
        }
    }

    pub fn new() -> (r: Classifier)
        ensures
            r.wf(),
            r.groups() =~= Seq::<Group>::empty(),
    {
        Classifier { groups: Vec::new() }
    }

    fn find_group(&self, id: u128) -> (r: Option<usize>)
        ensures
            match r {
                Some(i) => i == group_index_of(self.groups(), id),
                None => group_index_of(self.groups(), id) == -1,
            },
    {
        proof {
            lemma_group_index_of(self.groups(), id);
        }
        let mut i: usize = 0;
        while i < self.groups.len()
            invariant
                i <= self.groups().len(),
                forall|j: int| 0 <= j < i ==> (#[trigger] self.groups()[j]).id != id,
                -1 <= group_index_of(self.groups(), id) < self.groups().len(),
                group_index_of(self.groups(), id) >= 0 ==> self.groups()[group_index_of(
                    self.groups(),
                    id,
                )].id == id && (forall|j: int|
                    0 <= j < group_index_of(self.groups(), id) ==> (#[trigger] self.groups()[j]).id
                        != id),
                group_index_of(self.groups(), id) == -1 ==> (forall|j: int|
                    0 <= j < self.groups().len() ==> (#[trigger] self.groups()[j]).id != id),
            decreases self.groups().len() - i,
        {
            if self.groups[i].id == id {
                proof {
                    let r = group_index_of(self.groups(), id);
                    if r < i {
                        assert(self.groups()[r].id != id);
                    }
                }
                return Some(i);
            }
            i = i + 1;
        }
        None
    }

    /// The addresses currently assigned to a group id.
    pub fn ips_of(&self, id: u128) -> (r: Option<Vec<Ip>>)
        ensures
            match r {
                Some(v) => self.spec_has_group(id) && v@ == self.spec_ips_of(id),
                None => !self.spec_has_group(id),
            },
    {
        match self.find_group(id) {
            Some(i) => {
                proof {
                    lemma_group_index_of(self.groups(), id);
                }
                let mut v: Vec<Ip> = Vec::new();
                let g = &self.groups[i];
                let mut k: usize = 0;
                while k < g.ips.len()
                    invariant
                        k <= g.ips@.len(),
                        v@ =~= g.ips@.take(k as int),
                    decreases g.ips@.len() - k,
                {
                    v.push(g.ips[k]);
                    k = k + 1;
                }
                proof {
                    assert(g.ips@.take(g.ips@.len() as int) =~= g.ips@);
                }
                Some(v)
            },
            None => None,
        }
    }

    /// Assigns a source address to a group.
    ///
    /// Group id 0 is reserved and refused with `InvalidId`, changing
    /// nothing.  Otherwise the address joins the group's set (freshly
    /// created if needed) and the data-plane table maps the address to
    /// the id, leaving every other address's mapping alone.
    pub fn insert(&mut self, store: &mut SourceStore, ip: Ip, id: u128) -> (r: Result<
        (),
        FirewallError,
    >)
        requires
            old(self).wf(),
            old(store).wf(),
        ensures
            final(self).wf(),
            final(store).wf(),
            id == 0 ==> r == Err::<(), FirewallError>(FirewallError::InvalidId) && final(self).groups()
                == old(self).groups() && final(store).entries() == old(store).entries(),
            id != 0 ==> r == Ok::<(), FirewallError>(()),
            id != 0 ==> forall|x: Ip|
                #[trigger] final(store).spec_get(x) == if x == ip {
                    Some(id)
                } else {
                    old(store).spec_get(x)
                },
            id != 0 ==> final(self).spec_has_group(id) && (forall|x: Ip|
                #[trigger] final(self).spec_ips_of(id).contains(x) == (old(self).spec_ips_of(
                    id,
                ).contains(x) || x == ip)),
            id != 0 ==> forall|id2: u128|
                id2 != id ==> #[trigger] final(self).spec_has_group(id2) == old(
                    self,
                ).spec_has_group(id2),
            id != 0 ==> forall|id2: u128|
                id2 != id ==> #[trigger] final(self).spec_ips_of(id2) == old(self).spec_ips_of(
                    id2,
                ),
    {
        if id == 0 {
            return Err(FirewallError::InvalidId);
        }
        proof {
            lemma_group_index_of(self.groups(), id);
        }
        let found = self.find_group(id);
        let ghost pre = self.groups();
        match found {
            Some(i) => {
                let mut g = self.groups.remove(i);
                let ghost gpre = g;
                if !ip_in(&g.ips, &ip) {
                    g.ips.push(ip);
                }
                let ghost gpost = g;
                self.groups.insert(i, g);
                proof {
                    let post = self.groups();
                    assert(post =~= pre.update(i as int, gpost));
                    assert(gpost.id == id);
                    assert(gpost.ips@.len() > 0);
                    assert(forall|a: int|
                        0 <= a < gpre.ips@.len() ==> gpost.ips@[a] == gpre.ips@[a]);
                    assert(forall|x: Ip|
                        #[trigger] gpost.ips@.contains(x) == (gpre.ips@.contains(x) || x == ip))
                        by {
                        if !gpre.ips@.contains(ip) {
                            assert(gpost.ips@[gpre.ips@.len() as int] == ip);
                            assert forall|x: Ip| #[trigger] gpost.ips@.contains(x) implies (
                            gpre.ips@.contains(x) || x == ip) by {
                                let a = choose|a: int|
                                    0 <= a < gpost.ips@.len() && gpost.ips@[a] == x;
                                if a < gpre.ips@.len() {
                                    assert(gpre.ips@[a] == x);
                                }
                            }
                        }
                    }
                    assert(forall|a: int, b: int|
                        0 <= a < b < gpost.ips@.len() ==> (#[trigger] gpost.ips@[a]) != (
                        #[trigger] gpost.ips@[b])) by {
                        if !gpre.ips@.contains(ip) {
                            assert forall|a: int, b: int|
                                0 <= a < b < gpost.ips@.len() implies (#[trigger] gpost.ips@[a])
                                != (#[trigger] gpost.ips@[b]) by {
                                if b == gpost.ips@.len() - 1 && gpost.ips@.len() == gpre.ips@.len()
                                    + 1 {
                                    assert(gpost.ips@[b] == ip);
                                    assert(gpre.ips@[a] == gpost.ips@[a]);
                                    assert(gpre.ips@.contains(gpre.ips@[a]));
                                }
                            }
                        }
                    }
                    lemma_group_same_keys(pre, post);
                    assert forall|id2: u128| id2 != id implies #[trigger] self.spec_has_group(id2)
                        == Classifier::ghost_has_group(pre, id2) by {
                        lemma_group_index_of(pre, id2);
                    }
                    assert forall|id2: u128| id2 != id implies #[trigger] self.spec_ips_of(id2)
                        == Classifier::ghost_ips_of(pre, id2) by {
                        lemma_group_index_of(pre, id2);
                        let idx = group_index_of(pre, id2);
                        if idx >= 0 {
                            assert(pre[i as int].id == id);
                            assert(idx != i);
                            assert(post[idx] == pre[idx]);
                        }
                    }
                    assert(group_index_of(post, id) == i);
                    assert(self.spec_has_group(id));
                    assert(self.spec_ips_of(id) == gpost.ips@);
                    assert(Classifier::ghost_ips_of(pre, id) == gpre.ips@);
                    assert(forall|x: Ip|
                        #[trigger] self.spec_ips_of(id).contains(x) == (Classifier::ghost_ips_of(
                            pre,
                            id,
                        ).contains(x) || x == ip));
                }
                store.insert(ip, id);
                Ok(())
            },
            None => {
                let mut ips: Vec<Ip> = Vec::new();
                ips.push(ip);
                let g = Group { id, ips };
                self.groups.push(g);
                proof {
                    let post = self.groups();
                    assert(post[pre.len() as int].id == id);
                    assert(post[pre.len() as int].ips@ =~= seq![ip]);
                    assert(forall|j: int| 0 <= j < pre.len() ==> post[j] == pre[j]);
                    lemma_group_index_of(pre, id);
                    lemma_group_index_of_push(pre, post[pre.len() as int], id);
                    assert(self.wf()) by {
                        assert(forall|j: int| 0 <= j < pre.len() ==> (#[trigger] pre[j]).id != id);
                    }
                    assert forall|id2: u128| id2 != id implies #[trigger] self.spec_has_group(id2)
                        == Classifier::ghost_has_group(pre, id2) by {
                        lemma_group_index_of(pre, id2);
                        lemma_group_index_of_push(pre, post[pre.len() as int], id2);
                    }
                    assert forall|id2: u128| id2 != id implies #[trigger] self.spec_ips_of(id2)
                        == Classifier::ghost_ips_of(pre, id2) by {
                        lemma_group_index_of(pre, id2);
                        lemma_group_index_of_push(pre, post[pre.len() as int], id2);
                        let idx = group_index_of(pre, id2);
                        if idx >= 0 {
                            assert(post[idx] == pre[idx]);
                        }
                    }
                    assert(group_index_of(post, id) == pre.len());
                    assert(self.spec_has_group(id));
                    assert(self.spec_ips_of(id) == post[pre.len() as int].ips@);
                    assert(Classifier::ghost_ips_of(pre, id) =~= Seq::<Ip>::empty());
                    assert forall|x: Ip|
                        #[trigger] self.spec_ips_of(id).contains(x) == (Classifier::ghost_ips_of(
                            pre,
                            id,
                        ).contains(x) || x == ip) by {
                        if self.spec_ips_of(id).contains(x) {
                            let j = choose|j: int|
                                0 <= j < self.spec_ips_of(id).len() && self.spec_ips_of(id)[j]
                                    == x;
                            assert(j == 0);
                        }
                        if x == ip {
                            assert(self.spec_ips_of(id)[0] == x);
                        }
                    }
                }
                store.insert(ip, id);
                Ok(())
            },
        }
    }

    /// Drops one source address's group assignment.
    ///
    /// Succeeds iff the data-plane table maps the address; the address
    /// leaves its group's set (dropping the set when it empties) and
    /// the table entry is removed.  An unmapped address is refused with
    /// `NotFound` and nothing changes.
    pub fn remove(&mut self, store: &mut SourceStore, ip: &Ip) -> (r: Result<(), FirewallError>)
        requires
            old(self).wf(),
            old(store).wf(),
        ensures
            final(self).wf(),
            final(store).wf(),
            old(store).spec_get(*ip) is None ==> r == Err::<(), FirewallError>(
                FirewallError::NotFound,
            ) && final(self).groups() == old(self).groups() && final(store).entries() == old(
                store,
            ).entries(),
            old(store).spec_get(*ip) is Some ==> r == Ok::<(), FirewallError>(()),
            old(store).spec_get(*ip) is Some ==> forall|x: Ip|
                #[trigger] final(store).spec_get(x) == if x == *ip {
                    None::<u128>
                } else {
                    old(store).spec_get(x)
                },
            old(store).spec_get(*ip) is Some ==> forall|x: Ip|
                #[trigger] final(self).spec_ips_of(old(store).spec_get(*ip)->0).contains(x) == (
                old(self).spec_ips_of(old(store).spec_get(*ip)->0).contains(x) && x != *ip),
            old(store).spec_get(*ip) is Some ==> forall|id2: u128|
                id2 != old(store).spec_get(*ip)->0 ==> #[trigger] final(self).spec_has_group(id2)
                    == old(self).spec_has_group(id2),
            old(store).spec_get(*ip) is Some ==> forall|id2: u128|
                id2 != old(store).spec_get(*ip)->0 ==> #[trigger] final(self).spec_ips_of(id2)
                    == old(self).spec_ips_of(id2),
            // the group survives exactly when another address remains in
            // it: an emptied group is dropped
            old(store).spec_get(*ip) is Some ==> final(self).spec_has_group(
                old(store).spec_get(*ip)->0,
            ) == (exists|x: Ip|
                #[trigger] old(self).spec_ips_of(old(store).spec_get(*ip)->0).contains(x) && x
                    != *ip),
    {
        let gid = match store.get(ip) {
            Some(g) => g,
            None => {
                return Err(FirewallError::NotFound);
            },
        };
        proof {
            lemma_group_index_of(self.groups(), gid);
        }
        let found = self.find_group(gid);
        let ghost pre = self.groups();
        match found {
            Some(i) => {
                let mut g = self.groups.remove(i);
                let ghost gpre = g;
                ip_remove(&mut g.ips, ip);
                let ghost gpost = g;
                if g.ips.len() > 0 {
                    self.groups.insert(i, g);
                    proof {
                        let post = self.groups();
                        assert(post =~= pre.update(i as int, gpost));
                        lemma_group_same_keys(pre, post);
                        assert(group_index_of(post, gid) == i);
                        assert(self.spec_ips_of(gid) == gpost.ips@);
                        assert(Classifier::ghost_ips_of(pre, gid) == gpre.ips@);
                        assert forall|x: Ip| #[trigger] self.spec_ips_of(gid).contains(x) == (
                        Classifier::ghost_ips_of(pre, gid).contains(x) && x != *ip) by {
                            assert(gpost.ips@.contains(x) == (gpre.ips@.contains(x) && x != *ip));
                        }
                        // a surviving address witnesses the kept group
                        assert(self.spec_has_group(gid));
                        let w = gpost.ips@[0];
                        assert(gpost.ips@.contains(w));
                        assert(gpre.ips@.contains(w) && w != *ip);
                        assert(Classifier::ghost_ips_of(pre, gid) == old(self).spec_ips_of(gid));
                        assert(old(self).spec_ips_of(gid).contains(w) && w != *ip);
                        assert forall|id2: u128| id2 != gid implies #[trigger] self.spec_has_group(
                            id2,
                        ) == Classifier::ghost_has_group(pre, id2) by {
                            lemma_group_index_of(pre, id2);
                        }
                        assert forall|id2: u128| id2 != gid implies #[trigger] self.spec_ips_of(
                            id2,
                        ) == Classifier::ghost_ips_of(pre, id2) by {
                            lemma_group_index_of(pre, id2);
                            let idx = group_index_of(pre, id2);
                            if idx >= 0 {
                                assert(pre[i as int].id == gid);
                                assert(idx != i);
                                assert(post[idx] == pre[idx]);
                            }
                        }
                    }
                } else {
                    proof {
                        lemma_group_index_of(pre, gid);
                    }
                    proof {
                        lemma_group_remove_others(pre, i as int);
                    }
                    proof {
                        assert(forall|x: Ip| !gpost.ips@.contains(x));
                    }
                    let ghost post = self.groups();
                    proof {
                        assert(post == pre.remove(i as int));
                        assert(group_index_of(post, gid) == -1) by {
                            lemma_group_index_of(post, gid);
                            if group_index_of(post, gid) >= 0 {
                                let j = group_index_of(post, gid);
                                let j2: int = if j < i {
                                    j
                                } else {
                                    j + 1
                                };
                                assert(post[j] == pre[j2]);
                                assert(pre[j2].id == gid);
                                assert(pre[i as int].id == gid);
                            }
                        }
                        assert forall|x: Ip| #[trigger] self.spec_ips_of(gid).contains(x) == (
                        Classifier::ghost_ips_of(pre, gid).contains(x) && x != *ip) by {
                            assert(!gpost.ips@.contains(x));
                            assert(Classifier::ghost_ips_of(pre, gid) == gpre.ips@);
                            if gpre.ips@.contains(x) && x != *ip {
                                assert(gpost.ips@.contains(x));
                            }
                        }
                        assert forall|id2: u128| id2 != gid implies #[trigger] self.spec_has_group(
                            id2,
                        ) == Classifier::ghost_has_group(pre, id2) by {
                            lemma_group_others_after_remove(pre, i as int, id2);
                        }
                        assert forall|id2: u128| id2 != gid implies #[trigger] self.spec_ips_of(
                            id2,
                        ) == Classifier::ghost_ips_of(pre, id2) by {
                            lemma_group_others_after_remove(pre, i as int, id2);
                        }
                        // nothing survives: the group is gone, and no
                        // other address was in it
                        assert(!self.spec_has_group(gid));
                        assert(Classifier::ghost_ips_of(pre, gid) == old(self).spec_ips_of(gid));
                        assert forall|x: Ip|
                            !(#[trigger] old(self).spec_ips_of(gid).contains(x) && x != *ip) by {
                            if Classifier::ghost_ips_of(pre, gid).contains(x) && x != *ip {
                                assert(gpre.ips@.contains(x));
                                assert(gpost.ips@.contains(x));
                            }
                        }
                    }
                }
                store.remove(ip);
                Ok(())
            },
            None => {
                proof {
                    assert forall|x: Ip| #[trigger] self.spec_ips_of(gid).contains(x) == (
                    Classifier::ghost_ips_of(pre, gid).contains(x) && x != *ip) by {
                        assert(Classifier::ghost_ips_of(pre, gid) =~= Seq::<Ip>::empty());
                    }
                    lemma_group_index_of(pre, gid);
                    assert(!self.spec_has_group(gid));
                    assert(Classifier::ghost_ips_of(pre, gid) == old(self).spec_ips_of(gid));
                    assert(forall|x: Ip|
                        !(#[trigger] old(self).spec_ips_of(gid).contains(x)));
                }
                store.remove(ip);
                Ok(())
            },
        }
    }

    /// Unassigns a whole group: every address in the group's set leaves
    /// the data-plane table, and the group is dropped.
    ///
    /// Succeeds iff the group exists; an unknown id is refused with
    /// `NotExistingId` and nothing changes.
    pub fn remove_by_id(&mut self, store: &mut SourceStore, id: u128) -> (r: Result<
        (),
        FirewallError,
    >)
        requires
            old(self).wf(),
            old(store).wf(),
        ensures
            final(self).wf(),
            final(store).wf(),
            !old(self).spec_has_group(id) ==> r == Err::<(), FirewallError>(
                FirewallError::NotExistingId,
            ) && final(self).groups() == old(self).groups() && final(store).entries() == old(
                store,
            ).entries(),
            old(self).spec_has_group(id) ==> r == Ok::<(), FirewallError>(()),
            old(self).spec_has_group(id) ==> forall|x: Ip|
                #[trigger] final(store).spec_get(x) == if old(self).spec_ips_of(id).contains(x) {
                    None::<u128>
                } else {
                    old(store).spec_get(x)
                },
            old(self).spec_has_group(id) ==> !final(self).spec_has_group(id),
            old(self).spec_has_group(id) ==> forall|id2: u128|
                id2 != id ==> #[trigger] final(self).spec_has_group(id2) == old(
                    self,
                ).spec_has_group(id2),
            old(self).spec_has_group(id) ==> forall|id2: u128|
                id2 != id ==> #[trigger] final(self).spec_ips_of(id2) == old(self).spec_ips_of(
                    id2,
                ),
    {
        proof {
            lemma_group_index_of(self.groups(), id);
        }
        let found = self.find_group(id);
        let ghost pre = self.groups();
        let ghost spre = store.entries();
        match found {
            Some(i) => {
                proof {
                    lemma_group_index_of(pre, id);
                }
                let g = &self.groups[i];
                let ghost ips = g.ips@;
                let mut k: usize = 0;
                while k < g.ips.len()
                    invariant
                        ips == g.ips@,
                        k <= ips.len(),
                        store.wf(),
                        forall|x: Ip|
                            #[trigger] store.spec_get(x) == if ips.take(k as int).contains(x) {
                                None::<u128>
                            } else {
                                SourceStore::ghost_get(spre, x)
                            },
                    decreases ips.len() - k,
                {
                    let ghost smid = store.entries();
                    store.remove(&g.ips[k]);
                    proof {
                        assert(ips.take(k as int + 1) =~= ips.take(k as int).push(ips[k as int]));
                        assert forall|x: Ip|
                            #[trigger] store.spec_get(x) == if ips.take(k as int + 1).contains(x) {
                                None::<u128>
                            } else {
                                SourceStore::ghost_get(spre, x)
                            } by {
                            assert(ips.take(k as int + 1)[k as int] == ips[k as int]);
                            if ips.take(k as int + 1).contains(x) {
                                if x != ips[k as int] {
                                    let j = choose|j: int|
                                        0 <= j < ips.take(k as int + 1).len() && (#[trigger] ips.take(
                                            k as int + 1,
                                        )[j]) == x;
                                    assert(ips.take(k as int)[j] == x);
                                }
                            } else {
                                assert(!ips.take(k as int).contains(x)) by {
                                    if ips.take(k as int).contains(x) {
                                        let j = choose|j: int|
                                            0 <= j < ips.take(k as int).len() && (#[trigger] ips.take(
                                                k as int,
                                            )[j]) == x;
                                        assert(ips.take(k as int + 1)[j] == x);
                                    }
                                }
                            }
                        }
                    }
                    k = k + 1;
                }
                proof {
                    assert(ips.take(ips.len() as int) =~= ips);
                }
                self.groups.remove(i);
                proof {
                    let post = self.groups();
                    lemma_group_remove_others(pre, i as int);
                    assert(group_index_of(post, id) == -1) by {
                        lemma_group_index_of(post, id);
                        if group_index_of(post, id) >= 0 {
                            let j = group_index_of(post, id);
                            let j2: int = if j < i {
                                j
                            } else {
                                j + 1
                            };
                            assert(post[j] == pre[j2]);
                            assert(pre[i as int].id == id);
                        }
                    }
                    assert forall|id2: u128| id2 != id implies #[trigger] self.spec_has_group(id2)
                        == Classifier::ghost_has_group(pre, id2) by {
                        lemma_group_others_after_remove(pre, i as int, id2);
                    }
                    assert forall|id2: u128| id2 != id implies #[trigger] self.spec_ips_of(id2)
                        == Classifier::ghost_ips_of(pre, id2) by {
                        lemma_group_others_after_remove(pre, i as int, id2);
                    }
                }
                Ok(())
            },
            None => Err(FirewallError::NotExistingId),
        }
    }

    pub open spec fn ghost_has_group(s: Seq<Group>, id: u128) -> bool {
        group_index_of(s, id) >= 0
    }

    pub open spec fn ghost_ips_of(s: Seq<Group>, id: u128) -> Seq<Ip> {
        if group_index_of(s, id) >= 0 {
            s[group_index_of(s, id)].ips@
        } else {
            Seq::empty()
        }
    }
}

/// Is the address in the list?
fn ip_in(v: &Vec<Ip>, ip: &Ip) -> (r: bool)
    ensures
        r == v@.contains(*ip),
{
    let mut i: usize = 0;
    while i < v.len()
        invariant
            i <= v@.len(),
            forall|j: int| 0 <= j < i ==> v@[j] != *ip,
        decreases v@.len() - i,
    {
        if v[i] == *ip {
            return true;
        }
        i = i + 1;
    }
    proof {
        if v@.contains(*ip) {
            let j = choose|j: int| 0 <= j < v@.len() && v@[j] == *ip;
        }
    }
    false
}

/// Two group lists with pointwise equal ids index alike.
proof fn lemma_group_same_keys_rec(a: Seq<Group>, b: Seq<Group>, id: u128)
    requires
        a.len() == b.len(),
        forall|j: int| 0 <= j < a.len() ==> (#[trigger] b[j]).id == a[j].id,
    ensures
        group_index_of(a, id) == group_index_of(b, id),
    decreases a.len(),
{
    if a.len() > 0 {
        let ra = a.drop_first();
        let rb = b.drop_first();
        assert(forall|j: int| 0 <= j < ra.len() ==> ra[j] == a[j + 1] && rb[j] == b[j + 1]);
        lemma_group_same_keys_rec(ra, rb, id);
    }
}

proof fn lemma_group_same_keys(a: Seq<Group>, b: Seq<Group>)
    requires
        a.len() == b.len(),
        forall|j: int| 0 <= j < a.len() ==> (#[trigger] b[j]).id == a[j].id,
    ensures
        forall|id: u128| #[trigger] group_index_of(a, id) == group_index_of(b, id),
{
    assert forall|id: u128| #[trigger] group_index_of(a, id) == group_index_of(b, id) by {
        lemma_group_same_keys_rec(a, b, id);
    }
}

proof fn lemma_group_index_of_push(pre: Seq<Group>, entry: Group, id: u128)
    ensures
        entry.id == id && group_index_of(pre, id) == -1 ==> group_index_of(pre.push(entry), id)
            == pre.len(),
        entry.id != id || group_index_of(pre, id) >= 0 ==> group_index_of(pre.push(entry), id)
            == group_index_of(pre, id),
    decreases pre.len(),
{
    let post = pre.push(entry);
    if pre.len() == 0 {
        assert(post[0] == entry);
        assert(post.drop_first() =~= Seq::<Group>::empty());
        lemma_group_index_of(post.drop_first(), id);
    } else {
        assert(post[0] == pre[0]);
        assert(post.drop_first() =~= pre.drop_first().push(entry));
        lemma_group_index_of_push(pre.drop_first(), entry, id);
        lemma_group_index_of(pre.drop_first(), id);
    }
}

/// Removes one address from a duplicate-free list, if present.
#[verifier::loop_isolation(false)]
fn ip_remove(v: &mut Vec<Ip>, ip: &Ip)
    requires
        forall|a: int, b: int| 0 <= a < b < old(v)@.len() ==> (#[trigger] old(v)@[a]) != (#[trigger] old(v)@[b]),
    ensures
        forall|a: int, b: int| 0 <= a < b < final(v)@.len() ==> (#[trigger] final(v)@[a]) != (#[trigger] final(v)@[b]),
        forall|x: Ip| #[trigger] final(v)@.contains(x) == (old(v)@.contains(x) && x != *ip),
{
    let ghost pre = v@;
    let mut i: usize = 0;
    while i < v.len()
        invariant
            pre == v@,
            i <= pre.len(),
            forall|j: int| 0 <= j < i ==> pre[j] != *ip,
        decreases pre.len() - i,
    {
        if v[i] == *ip {
            v.remove(i);
            proof {
                let post = v@;
                assert(post == pre.remove(i as int));
                pre.remove_ensures(i as int);
                assert forall|a: int, b: int| 0 <= a < b < post.len() implies (
                #[trigger] post[a]) != (#[trigger] post[b]) by {
                    let a2: int = if a < i {
                        a
                    } else {
                        a + 1
                    };
                    let b2: int = if b < i {
                        b
                    } else {
                        b + 1
                    };
                    assert(post[a] == pre[a2] && post[b] == pre[b2]);
                    assert(0 <= a2 < b2 < pre.len());
                    assert(pre[a2] != pre[b2]);
                }
                assert forall|x: Ip| #[trigger] post.contains(x) == (pre.contains(x) && x != *ip)
                    by {
                    if post.contains(x) {
                        let j = choose|j: int| 0 <= j < post.len() && post[j] == x;
                        let j2: int = if j < i {
                            j
                        } else {
                            j + 1
                        };
                        assert(pre[j2] == x);
                        assert(pre.contains(x));
                        if x == *ip {
                            assert(pre[i as int] == *ip);
                        }
                    }
                    if pre.contains(x) && x != *ip {
                        let j = choose|j: int| 0 <= j < pre.len() && pre[j] == x;
                        let j2: int = if j < i {
                            j
                        } else {
                            j - 1
                        };
                        assert(post[j2] == x);
                    }
                }
            }
            return ;
        }
        i = i + 1;
    }
    proof {
        assert forall|x: Ip| #[trigger] v@.contains(x) == (pre.contains(x) && x != *ip) by {
            if v@.contains(x) && x == *ip {
                let j = choose|j: int| 0 <= j < v@.len() && v@[j] == x;
            }
        }
    }
}

/// After removing one group, the remaining rows keep their ids.
proof fn lemma_group_remove_others(pre: Seq<Group>, i: int)
    requires
        0 <= i < pre.len(),
    ensures
        forall|j: int|
            0 <= j < pre.remove(i).len() ==> #[trigger] pre.remove(i)[j] == if j < i {
                pre[j]
            } else {
                pre[j + 1]
            },
{
}

/// How a group id's index moves when another group's row is removed.
proof fn lemma_group_others_after_remove(pre: Seq<Group>, i: int, id: u128)
    requires
        0 <= i < pre.len(),
        pre[i].id != id,
        forall|a: int, b: int| 0 <= a < b < pre.len() ==> (#[trigger] pre[a]).id != (#[trigger] pre[b]).id,
    ensures
        (group_index_of(pre.remove(i), id) >= 0 <==> group_index_of(pre, id) >= 0),
        group_index_of(pre, id) >= 0 ==> pre.remove(i)[group_index_of(pre.remove(i), id)]
            == pre[group_index_of(pre, id)],
        Classifier::ghost_has_group(pre.remove(i), id) == Classifier::ghost_has_group(pre, id),
        Classifier::ghost_ips_of(pre.remove(i), id) == Classifier::ghost_ips_of(pre, id),
{
    let post = pre.remove(i);
    lemma_group_index_of(pre, id);
    lemma_group_index_of(post, id);
    let rp = group_index_of(pre, id);
    let rq = group_index_of(post, id);
    if rp >= 0 {
        let jj: int = if rp < i {
            rp
        } else {
            rp - 1
        };
        assert(post[jj] == pre[rp]);
        if rq < 0 {
            assert(post[jj].id != id);
        }
        let orig: int = if rq < i {
            rq
        } else {
            rq + 1
        };
        assert(post[rq] == pre[orig]);
        if orig != rp {
            assert(pre[orig].id != pre[rp].id);
        }
    } else {
        if rq >= 0 {
            let orig: int = if rq < i {
                rq
            } else {
                rq + 1
            };
            assert(post[rq] == pre[orig]);
            assert(pre[orig].id != id);
        }
    }
}

} // verus!
