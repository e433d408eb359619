//! The peer directory: a persistent, mergeable mapping from node identifier
//! to known network addresses. Records are kept strictly sorted by
//! identifier, so the directory has one representation per content.
use vstd::prelude::*;

use crate::hexid::{bytes_eq, UNodeId};
use crate::node_data::{merged_view, NodeDataView, UNodeData};
use crate::order::{lex_cmp, lex_lt, strictly_sorted, ByteOrd};
use crate::order::{lemma_lex_irreflexive, lemma_lex_transitive, lemma_strictly_sorted_unique};

verus! {

/// The identifiers of a record list, in stored order.
pub open spec fn keys_of(s: Seq<(UNodeId, UNodeData)>) -> Seq<Seq<u8>> {
    Seq::new(s.len(), |i: int| s[i].0@)
}

/// Every identifier and every record of the list is well-formed.
pub open spec fn entries_wf(s: Seq<(UNodeId, UNodeData)>) -> bool {
    forall|i: int| 0 <= i < s.len() ==> (#[trigger] s[i]).0.wf() && s[i].1.wf()
}

/// Some record carries the identifier `k`.
pub open spec fn has_key(s: Seq<(UNodeId, UNodeData)>, k: Seq<u8>) -> bool {
    exists|i: int| 0 <= i < s.len() && (#[trigger] s[i]).0@ == k
}

/// The index of the record carrying `k`; meaningful when `has_key` holds
/// and the keys are free of duplicates.
pub open spec fn key_index(s: Seq<(UNodeId, UNodeData)>, k: Seq<u8>) -> int {
    choose|i: int| 0 <= i < s.len() && (#[trigger] s[i]).0@ == k
}

/// The mapping a record list denotes.
pub open spec fn dir_of(s: Seq<(UNodeId, UNodeData)>) -> Map<Seq<u8>, NodeDataView> {
    Map::new(|k: Seq<u8>| has_key(s, k), |k: Seq<u8>| s[key_index(s, k)].1.dv())
}

/// What `upsert_node` does to the denoted mapping: a fresh identifier is
/// bound to the observation verbatim, a known one to the merge of the held
/// record with the observation.
pub open spec fn upsert_dir(
    d: Map<Seq<u8>, NodeDataView>,
    k: Seq<u8>,
    v: NodeDataView,
) -> Map<Seq<u8>, NodeDataView> {
    if d.dom().contains(k) {
        d.insert(k, merged_view(d[k], v))
    } else {
        d.insert(k, v)
    }
}

/// A batch of observations merged in order.
pub open spec fn upsert_dir_all(
    d: Map<Seq<u8>, NodeDataView>,
    peers: Seq<(UNodeId, UNodeData)>,
) -> Map<Seq<u8>, NodeDataView>
    decreases peers.len(),
{
    if peers.len() == 0 {
        d
    } else {
        upsert_dir_all(upsert_dir(d, peers[0].0@, peers[0].1.dv()), peers.drop_first())
    }
}

/// With sorted keys, `key_index` is the one index carrying `k`.
proof fn lemma_key_index_unique(s: Seq<(UNodeId, UNodeData)>, k: Seq<u8>, i: int)
    requires
        strictly_sorted(keys_of(s)),
        0 <= i < s.len(),
        s[i].0@ == k,
    ensures
        has_key(s, k),
        key_index(s, k) == i,
{
    assert(has_key(s, k));
    let j = key_index(s, k);
    assert(0 <= j < s.len() && s[j].0@ == k);
    if j != i {
        lemma_strictly_sorted_unique(keys_of(s), i, j);
        assert(keys_of(s)[i] == k && keys_of(s)[j] == k);
    }
}

/// Replacing the record at `p` by one with the same identifier updates the
/// denoted mapping at that identifier and nothing else.
proof fn lemma_dir_after_update(
    s0: Seq<(UNodeId, UNodeData)>,
    s1: Seq<(UNodeId, UNodeData)>,
    p: int,
    e: (UNodeId, UNodeData),
)
    requires
        strictly_sorted(keys_of(s0)),
        entries_wf(s0),
        0 <= p < s0.len(),
        s1.len() == s0.len(),
        forall|k: int| 0 <= k < s0.len() && k != p ==> s1[k] == s0[k],
        s1[p] == e,
        e.0@ == s0[p].0@,
        e.0.wf(),
        e.1.wf(),
    ensures
        strictly_sorted(keys_of(s1)),
        entries_wf(s1),
        has_key(s0, e.0@),
        dir_of(s0)[e.0@] == s0[p].1.dv(),
        dir_of(s1) == dir_of(s0).insert(e.0@, e.1.dv()),
{
    assert(keys_of(s1) =~= keys_of(s0));
    lemma_key_index_unique(s0, e.0@, p);
    lemma_key_index_unique(s1, e.0@, p);
    assert forall|k: Seq<u8>| #[trigger] has_key(s1, k) implies has_key(s0, k) by {
        let i = choose|i: int| 0 <= i < s1.len() && (#[trigger] s1[i]).0@ == k;
        if i == p {
            assert(s0[p].0@ == k);
        } else {
            assert(s0[i].0@ == k);
        }
    }
    assert forall|k: Seq<u8>| #[trigger] has_key(s0, k) implies has_key(s1, k) by {
        let i = choose|i: int| 0 <= i < s0.len() && (#[trigger] s0[i]).0@ == k;
        if i == p {
            assert(s1[p].0@ == k);
        } else {
            assert(s1[i].0@ == k);
        }
    }
    assert forall|k: Seq<u8>| #[trigger] has_key(s1, k) implies dir_of(s1)[k] == dir_of(s0).insert(
        e.0@,
        e.1.dv(),
    )[k] by {
        if k == e.0@ {
            assert(dir_of(s1)[k] == e.1.dv());
        } else {
            let i = choose|i: int| 0 <= i < s0.len() && (#[trigger] s0[i]).0@ == k;
            assert(i != p);
            lemma_key_index_unique(s0, k, i);
            lemma_key_index_unique(s1, k, i);
            assert(dir_of(s1)[k] == s1[i].1.dv());
        }
    }
    assert(dir_of(s1) =~= dir_of(s0).insert(e.0@, e.1.dv()));
}

/// Inserting a record with a fresh identifier at its sorted position binds
/// that identifier and leaves every other binding unchanged.
proof fn lemma_dir_after_insert(s0: Seq<(UNodeId, UNodeData)>, e: (UNodeId, UNodeData), p: int)
    requires
        strictly_sorted(keys_of(s0)),
        entries_wf(s0),
        0 <= p <= s0.len(),
        forall|j: int| 0 <= j < p ==> lex_lt(keys_of(s0)[j], e.0@),
        p < s0.len() ==> lex_lt(e.0@, keys_of(s0)[p]),
        e.0.wf(),
        e.1.wf(),
    ensures
        strictly_sorted(keys_of(s0.insert(p, e))),
        entries_wf(s0.insert(p, e)),
        !has_key(s0, e.0@),
        dir_of(s0.insert(p, e)) == dir_of(s0).insert(e.0@, e.1.dv()),
{
    let s1 = s0.insert(p, e);
    let k0 = keys_of(s0);
    let k1 = keys_of(s1);
    assert(s1.len() == s0.len() + 1);
    assert forall|k: int| 0 <= k < s1.len() implies s1[k] == (if k < p {
        s0[k]
    } else if k == p {
        e
    } else {
        s0[k - 1]
    }) by {
        if k < p {
            assert(s1[k] == s0[k]);
        } else if k == p {
            assert(s1[k] == e);
        } else {
            assert(s1[k] == s0[k - 1]);
        }
    }
    assert forall|k1i: int, k2i: int| 0 <= k1i < k2i < k1.len() implies lex_lt(
        k1[k1i],
        k1[k2i],
    ) by {
        assert(k1[k1i] == s1[k1i].0@);
        assert(k1[k2i] == s1[k2i].0@);
        if k1i < p {
            assert(s1[k1i] == s0[k1i]);
            assert(k0[k1i] == s0[k1i].0@);
        } else if k1i == p {
            assert(s1[k1i] == e);
        } else {
            assert(s1[k1i] == s0[k1i - 1]);
            assert(k0[k1i - 1] == s0[k1i - 1].0@);
        }
        if k2i < p {
            assert(s1[k2i] == s0[k2i]);
            assert(k0[k2i] == s0[k2i].0@);
        } else if k2i == p {
            assert(s1[k2i] == e);
        } else {
            assert(s1[k2i] == s0[k2i - 1]);
            assert(k0[k2i - 1] == s0[k2i - 1].0@);
        }
        if k2i < p {
            assert(lex_lt(k0[k1i], k0[k2i]));
        } else if k2i == p {
            assert(lex_lt(k0[k1i], e.0@));
        } else {
            if k1i < p {
                assert(lex_lt(k0[k1i], k0[k2i - 1]));
            } else if k1i == p {
                if k2i - 1 > p {
                    assert(lex_lt(k0[p], k0[k2i - 1]));
                    lemma_lex_transitive(e.0@, k0[p], k0[k2i - 1]);
                }
                assert(lex_lt(e.0@, k0[k2i - 1]));
            } else {
                assert(lex_lt(k0[k1i - 1], k0[k2i - 1]));
            }
        }
    }
    assert forall|j: int| 0 <= j < s0.len() implies s0[j].0@ != e.0@ by {
        assert(k0[j] == s0[j].0@);
        if j < p {
            lemma_lex_irreflexive(e.0@);
        } else {
            lemma_lex_irreflexive(e.0@);
            if j > p {
                lemma_lex_transitive(e.0@, k0[p], k0[j]);
            }
        }
    }
    assert(!has_key(s0, e.0@));
    lemma_key_index_unique(s1, e.0@, p);
    assert forall|k: Seq<u8>| #[trigger] has_key(s1, k) implies (has_key(s0, k) || k == e.0@) by {
        let i = choose|i: int| 0 <= i < s1.len() && (#[trigger] s1[i]).0@ == k;
        if i < p {
            assert(s0[i].0@ == k);
        } else if i > p {
            assert(s0[i - 1].0@ == k);
        }
    }
    assert forall|k: Seq<u8>| has_key(s0, k) implies #[trigger] has_key(s1, k) by {
        let i = choose|i: int| 0 <= i < s0.len() && (#[trigger] s0[i]).0@ == k;
        if i < p {
            assert(s1[i].0@ == k);
        } else {
            assert(s1[i + 1].0@ == k);
        }
    }
    assert forall|k: Seq<u8>| #[trigger] has_key(s1, k) implies dir_of(s1)[k] == dir_of(s0).insert(
        e.0@,
        e.1.dv(),
    )[k] by {
        if k == e.0@ {
            assert(dir_of(s1)[k] == e.1.dv());
        } else {
            let i = choose|i: int| 0 <= i < s0.len() && (#[trigger] s0[i]).0@ == k;
            lemma_key_index_unique(s0, k, i);
            if i < p {
                lemma_key_index_unique(s1, k, i);
                assert(dir_of(s1)[k] == s1[i].1.dv());
            } else {
                lemma_key_index_unique(s1, k, i + 1);
                assert(dir_of(s1)[k] == s1[i + 1].1.dv());
            }
        }
    }
    assert(dir_of(s1) =~= dir_of(s0).insert(e.0@, e.1.dv()));
}

/// The peer directory. Loaded from a snapshot at construction, grown by
/// discovery and by ticket import, persisted at shutdown.
#[derive(Debug)]
pub struct NodeStorage {
    pub nodes: Vec<(UNodeId, UNodeData)>,
}

impl NodeStorage {
    /// The identifiers in stored order.
    pub open spec fn keys(&self) -> Seq<Seq<u8>> {
        keys_of(self.nodes@)
    }

    /// Well-formed: sorted identifiers, well-formed records.
    pub open spec fn wf(&self) -> bool {
        &&& strictly_sorted(self.keys())
        &&& entries_wf(self.nodes@)
    }

    /// The mapping this directory denotes.
    pub open spec fn directory(&self) -> Map<Seq<u8>, NodeDataView> {
        dir_of(self.nodes@)
    }

    /// An empty directory.
    pub fn new() -> (r: NodeStorage)
        ensures
            r.wf(),
            r.directory() == Map::<Seq<u8>, NodeDataView>::empty(),
            r.nodes@.len() == 0,
    {
        let r = NodeStorage { nodes: Vec::new() };
        proof {
            assert(r.directory() =~= Map::<Seq<u8>, NodeDataView>::empty());
        }
        r
    }

    /// Update or insert what was observed about one node: a new identifier
    /// is stored verbatim, a known one merges by the accumulation rule.
    pub fn upsert_node(&mut self, id: &UNodeId, data: &UNodeData)
        requires
            old(self).wf(),
            id.wf(),
            data.wf(),
        ensures
            final(self).wf(),
            final(self).directory() == upsert_dir(old(self).directory(), id@, data.dv()),
    {
        let ghost s0 = self.nodes@;
        let mut i: usize = 0;
        while i < self.nodes.len()
            invariant
                i <= self.nodes@.len(),
                *self == *old(self),
                s0 == self.nodes@,
                old(self).wf(),
                id.wf(),
                data.wf(),
                forall|j: int| 0 <= j < i ==> lex_lt(keys_of(s0)[j], id@),
            decreases self.nodes@.len() - i,
        {
            match lex_cmp(self.nodes[i].0.bytes.as_slice(), id.bytes.as_slice()) {
                ByteOrd::Less => {
                    i += 1;
                },
                ByteOrd::Equal => {
                    let (eid, mut edata) = self.nodes.remove(i);
                    proof {
                        assert(eid == s0[i as int].0 && edata == s0[i as int].1);
                    }
                    edata.merge_from(data);
                    let e = (eid, edata);
                    self.nodes.insert(i, e);
                    proof {
                        let s1 = self.nodes@;
                        assert(s1.len() == s0.len());
                        assert forall|k: int| 0 <= k < s0.len() && k != i as int implies s1[k]
                            == s0[k] by {
                            if k < i as int {
                                assert(s0.remove(i as int)[k] == s0[k]);
                            } else {
                                assert(s0.remove(i as int)[k - 1] == s0[k]);
                            }
                        }
                        lemma_dir_after_update(s0, s1, i as int, s1[i as int]);
                    }
                    return ;
                },
                ByteOrd::Greater => {
                    let e = (id.dup(), data.dup());
                    let ghost ee = e;
                    proof {
                        lemma_dir_after_insert(s0, ee, i as int);
                        assert(upsert_dir(dir_of(s0), id@, data.dv()) == dir_of(s0).insert(
                            id@,
                            ee.1.dv(),
                        ));
                    }
                    self.nodes.insert(i, e);
                    return ;
                },
            }
        }
        let e = (id.dup(), data.dup());
        let ghost ee = e;
        proof {
            lemma_dir_after_insert(s0, ee, s0.len() as int);
            assert(upsert_dir(dir_of(s0), id@, data.dv()) == dir_of(s0).insert(id@, ee.1.dv()));
        }
        let end = self.nodes.len();
        self.nodes.insert(end, e);
    }

    /// Merges a batch of observations in order: what ticket import does
    /// with every peer address embedded in a ticket, before asking the
    /// store to import, so the namespace is reachable before any
    /// discovery event arrives.
    pub fn upsert_all(&mut self, peers: &Vec<(UNodeId, UNodeData)>)
        requires
            old(self).wf(),
            forall|i: int| 0 <= i < peers@.len() ==> (#[trigger] peers@[i]).0.wf()
                && peers@[i].1.wf(),
        ensures
            final(self).wf(),
            final(self).directory() == upsert_dir_all(old(self).directory(), peers@),
    {
        proof {
            assert(peers@.skip(0) =~= peers@);
        }
        let mut i: usize = 0;
        while i < peers.len()
            invariant
                i <= peers@.len(),
                self.wf(),
                forall|j: int| 0 <= j < peers@.len() ==> (#[trigger] peers@[j]).0.wf()
                    && peers@[j].1.wf(),
                upsert_dir_all(old(self).directory(), peers@) == upsert_dir_all(
                    self.directory(),
                    peers@.skip(i as int),
                ),
            decreases peers@.len() - i,
        {
            let ghost rest = peers@.skip(i as int);
            proof {
                assert(rest[0] == peers@[i as int]);
                assert(rest.drop_first() =~= peers@.skip(i as int + 1));
            }
            self.upsert_node(&peers[i].0, &peers[i].1);
            i += 1;
        }
        proof {
            assert(peers@.skip(peers@.len() as int).len() == 0);
        }
    }

    /// The record held for `id`, or `None` when the node is unknown.
    pub fn get_node_data(&self, id: &UNodeId) -> (r: Option<&UNodeData>)
        requires
            self.wf(),
        ensures
            match r {
                Some(d) => self.directory().dom().contains(id@) && d.dv() == self.directory()[id@]
                    && d.wf(),
                None => !self.directory().dom().contains(id@),
            },
    {
        let mut i: usize = 0;
        while i < self.nodes.len()
            invariant
                i <= self.nodes@.len(),
                self.wf(),
                forall|j: int| 0 <= j < i ==> (#[trigger] self.nodes@[j]).0@ != id@,
            decreases self.nodes@.len() - i,
        {
            if bytes_eq(self.nodes[i].0.bytes.as_slice(), id.bytes.as_slice()) {
                proof {
                    lemma_key_index_unique(self.nodes@, id@, i as int);
                }
                return Some(&self.nodes[i].1);
            }
            i += 1;
        }
        proof {
            if has_key(self.nodes@, id@) {
                let j = choose|j: int|
                    0 <= j < self.nodes@.len() && (#[trigger] self.nodes@[j]).0@ == id@;
                assert(self.nodes@[j].0@ != id@);
            }
        }
        None
    }

    /// The record held for `id`; the same lookup under the name used for
    /// wrapped identifiers.
    pub fn get_unode_data(&self, id: &UNodeId) -> (r: Option<&UNodeData>)
        requires
            self.wf(),
        ensures
            match r {
                Some(d) => self.directory().dom().contains(id@) && d.dv() == self.directory()[id@]
                    && d.wf(),
                None => !self.directory().dom().contains(id@),
            },
    {
        self.get_node_data(id)
    }

    /// The identifiers of every known node, in stored order.
    pub fn get_known_nodes(&self) -> (r: Vec<UNodeId>)
        requires
            self.wf(),
        ensures
            r@.len() == self.nodes@.len(),
            forall|i: int| 0 <= i < r@.len() ==> (#[trigger] r@[i])@ == self.keys()[i],
    {
        let mut out: Vec<UNodeId> = Vec::new();
        let mut i: usize = 0;
        while i < self.nodes.len()
            invariant
                i <= self.nodes@.len(),
                self.wf(),
                out@.len() == i,
                forall|j: int| 0 <= j < i ==> (#[trigger] out@[j])@ == self.keys()[j],
            decreases self.nodes@.len() - i,
        {
            out.push(self.nodes[i].0.dup());
            i += 1;
        }
        out
    }

    /// A copy of every record, in stored order, for the caller to contact
    /// peers without holding the directory.
    pub fn snapshot_peers(&self) -> (r: Vec<(UNodeId, UNodeData)>)
        requires
            self.wf(),
        ensures
            r@.len() == self.nodes@.len(),
            forall|i: int| 0 <= i < r@.len() ==> (#[trigger] r@[i]).0@ == self.nodes@[i].0@
                && r@[i].1.relay_view() == self.nodes@[i].1.relay_view() && r@[i].1.addr_views()
                == self.nodes@[i].1.addr_views(),
    {
        let mut out: Vec<(UNodeId, UNodeData)> = Vec::new();
        let mut i: usize = 0;
        while i < self.nodes.len()
            invariant
                i <= self.nodes@.len(),
                self.wf(),
                out@.len() == i,
                forall|j: int| 0 <= j < i ==> (#[trigger] out@[j]).0@ == self.nodes@[j].0@
                    && out@[j].1.relay_view() == self.nodes@[j].1.relay_view()
                    && out@[j].1.addr_views() == self.nodes@[j].1.addr_views(),
            decreases self.nodes@.len() - i,
        {
            out.push((self.nodes[i].0.dup(), self.nodes[i].1.dup()));
            i += 1;
        }
        out
    }

    /// True when no node is known.
    pub fn is_empty(&self) -> (r: bool)
        ensures
            r == (self.nodes@.len() == 0),
    {
        self.nodes.len() == 0
    }

    /// The number of known nodes.
    pub fn len(&self) -> (r: usize)
        ensures
            r == self.nodes@.len(),
    {
        self.nodes.len()
    }
}

impl Default for NodeStorage {
    /// An empty directory, as a fresh instance starts before any snapshot
    /// is loaded.
    fn default() -> (r: NodeStorage)
        ensures
            r.wf(),
            r.nodes@.len() == 0,
    {
        NodeStorage::new()
    }
}

/// Merging the same observation twice leaves the directory as after
/// merging it once.
pub proof fn lemma_upsert_idempotent(d: Map<Seq<u8>, NodeDataView>, k: Seq<u8>, v: NodeDataView)
    ensures
        upsert_dir(upsert_dir(d, k, v), k, v) == upsert_dir(d, k, v),
{
    let d1 = upsert_dir(d, k, v);
    let m = d1[k];
    assert(merged_view(m, v).addrs =~= m.addrs);
    assert(merged_view(m, v) == m);
    assert(upsert_dir(d1, k, v) =~= d1);
}

/// Address accumulation is commutative: the order in which two
/// observations of the same node arrive never changes the final address
/// set — only the relay address is last-observed-wins.
pub proof fn lemma_upsert_addrs_commute(
    d: Map<Seq<u8>, NodeDataView>,
    k: Seq<u8>,
    r1: NodeDataView,
    r2: NodeDataView,
)
    ensures
        upsert_dir(upsert_dir(d, k, r1), k, r2)[k].addrs == upsert_dir(
            upsert_dir(d, k, r2),
            k,
            r1,
        )[k].addrs,
{
    let a = upsert_dir(upsert_dir(d, k, r1), k, r2)[k].addrs;
    let b = upsert_dir(upsert_dir(d, k, r2), k, r1)[k].addrs;
    assert(a =~= b);
}

/// Observing `r1` then `r2` for a fresh node accumulates the union of
/// their direct addresses, and keeps `r2`'s relay when present, else
/// `r1`'s; no other binding changes.
pub proof fn lemma_upsert_union(
    d: Map<Seq<u8>, NodeDataView>,
    k: Seq<u8>,
    r1: NodeDataView,
    r2: NodeDataView,
)
    requires
        !d.dom().contains(k),
    ensures
        ({
            let d2 = upsert_dir(upsert_dir(d, k, r1), k, r2);
            &&& d2.dom() == d.dom().insert(k)
            &&& d2[k].addrs == r1.addrs.union(r2.addrs)
            &&& d2[k].relay == (if r2.relay is Some {
                r2.relay
            } else {
                r1.relay
            })
            &&& forall|x: Seq<u8>| d.dom().contains(x) && x != k ==> d2[x] == d[x]
        }),
{
    let d2 = upsert_dir(upsert_dir(d, k, r1), k, r2);
    assert(d2.dom() =~= d.dom().insert(k));
}

} // verus!
