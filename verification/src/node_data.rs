//! What is known about one peer: an optional relay address and a set of
//! direct socket addresses. Merging never loses a direct address; the relay
//! address follows the most recent non-empty observation.
use vstd::prelude::*;

use crate::errors::SharedError;
use crate::hexid::copy_bytes;
use crate::order::{lex_cmp, lex_lt, strictly_sorted, views_of, ByteOrd};
use crate::order::lemma_lex_transitive;

verus! {

/// The set of byte strings a list holds, order forgotten.
pub open spec fn set_of(s: Seq<Seq<u8>>) -> Set<Seq<u8>> {
    Set::new(|x: Seq<u8>| s.contains(x))
}

/// Address text as it is persisted: printable ASCII without the two JSON
/// string delimiters, so a snapshot holds it verbatim.
pub open spec fn safe_text(t: Seq<u8>) -> bool {
    forall|i: int| 0 <= i < t.len() ==> 32 <= t[i] <= 126 && t[i] != 34 && t[i] != 92
}

/// Every string of the list is safe address text.
pub open spec fn all_safe(s: Seq<Seq<u8>>) -> bool {
    forall|i: int| 0 <= i < s.len() ==> safe_text(#[trigger] s[i])
}

/// True exactly on safe address text.
pub fn is_safe_text(t: &[u8]) -> (r: bool)
    ensures
        r == safe_text(t@),
{
    let mut i: usize = 0;
    while i < t.len()
        invariant
            i <= t@.len(),
            forall|j: int| 0 <= j < i ==> 32 <= t@[j] <= 126 && t@[j] != 34 && t@[j] != 92,
        decreases t@.len() - i,
    {
        let b = t[i];
        if !(32 <= b && b <= 126) || b == 34 || b == 92 {
            return false;
        }
        i += 1;
    }
    true
}

/// Mathematical content of a `UNodeData`: the relay observation and the
/// direct addresses as a set.
pub struct NodeDataView {
    pub relay: Option<Seq<u8>>,
    pub addrs: Set<Seq<u8>>,
}

/// The merge rule: the newer relay address wins when present, direct
/// addresses accumulate.
pub open spec fn merged_view(older: NodeDataView, newer: NodeDataView) -> NodeDataView {
    NodeDataView {
        relay: if newer.relay is Some {
            newer.relay
        } else {
            older.relay
        },
        addrs: older.addrs.union(newer.addrs),
    }
}

/// Known network addresses of one peer. The direct addresses are kept
/// strictly sorted, so equal sets always have equal representations.
#[derive(Debug)]
pub struct UNodeData {
    pub relay_url: Option<Vec<u8>>,
    pub direct_addresses: Vec<Vec<u8>>,
}

/// What one insertion at position `p` does to a sorted list of byte
/// strings: sortedness kept, the set grown by exactly the new string,
/// safety kept.
proof fn lemma_views_after_insert(s0: Seq<Vec<u8>>, c: Vec<u8>, p: int, a: Seq<u8>)
    requires
        0 <= p <= s0.len(),
        c@ == a,
        strictly_sorted(views_of(s0)),
        forall|j: int| 0 <= j < p ==> lex_lt(views_of(s0)[j], a),
        p < s0.len() ==> lex_lt(a, views_of(s0)[p]),
    ensures
        strictly_sorted(views_of(s0.insert(p, c))),
        set_of(views_of(s0.insert(p, c))) == set_of(views_of(s0)).insert(a),
        all_safe(views_of(s0)) && safe_text(a) ==> all_safe(views_of(s0.insert(p, c))),
{
    let s1 = s0.insert(p, c);
    let v0 = views_of(s0);
    let v1 = views_of(s1);
    assert(s1.len() == s0.len() + 1);
    assert forall|k: int| 0 <= k < s1.len() implies v1[k] == (if k < p {
        v0[k]
    } else if k == p {
        a
    } else {
        v0[k - 1]
    }) by {
        if k < p {
            assert(s1[k] == s0[k]);
        } else if k == p {
            assert(s1[k] == c);
        } else {
            assert(s1[k] == s0[k - 1]);
        }
    }
    assert forall|k1: int, k2: int| 0 <= k1 < k2 < v1.len() implies lex_lt(v1[k1], v1[k2]) by {
        if k1 == p && k2 > p {
            if k2 - 1 > p {
                lemma_lex_transitive(a, v0[p], v0[k2 - 1]);
            }
        }
    }
    assert forall|x: Seq<u8>| #[trigger] set_of(v1).contains(x) implies set_of(v0).insert(
        a,
    ).contains(x) by {
        let k = choose|k: int| 0 <= k < v1.len() && v1[k] == x;
        if k < p {
            assert(v0[k] == x);
        } else if k > p {
            assert(v0[k - 1] == x);
        }
    }
    assert forall|x: Seq<u8>| #[trigger] set_of(v0).insert(a).contains(x) implies set_of(
        v1,
    ).contains(x) by {
        if x == a {
            assert(v1[p] == x);
        } else {
            let k = choose|k: int| 0 <= k < v0.len() && v0[k] == x;
            if k < p {
                assert(v1[k] == x);
            } else {
                assert(v1[k + 1] == x);
            }
        }
    }
    assert(set_of(v1) =~= set_of(v0).insert(a));
    if all_safe(v0) && safe_text(a) {
        assert forall|k: int| 0 <= k < v1.len() implies safe_text(#[trigger] v1[k]) by {
            if k < p {
                assert(v1[k] == v0[k]);
            } else if k > p {
                assert(v1[k] == v0[k - 1]);
            }
        }
    }
}

/// Appending one string to a list grows its set by exactly that string.
proof fn lemma_set_of_push(s: Seq<Seq<u8>>, a: Seq<u8>)
    ensures
        set_of(s.push(a)) == set_of(s).insert(a),
{
    assert forall|x: Seq<u8>| #[trigger] set_of(s.push(a)).contains(x) implies set_of(s).insert(
        a,
    ).contains(x) by {
        let k = choose|k: int| 0 <= k < s.push(a).len() && s.push(a)[k] == x;
        if k < s.len() {
            assert(s[k] == x);
        }
    }
    assert forall|x: Seq<u8>| #[trigger] set_of(s).insert(a).contains(x) implies set_of(
        s.push(a),
    ).contains(x) by {
        if x == a {
            assert(s.push(a)[s.len() as int] == x);
        } else {
            let k = choose|k: int| 0 <= k < s.len() && s[k] == x;
            assert(s.push(a)[k] == x);
        }
    }
    assert(set_of(s.push(a)) =~= set_of(s).insert(a));
}

/// Inserts address text into a sorted list, keeping it sorted and adding
/// nothing when the text is already present.
fn insert_addr(list: &mut Vec<Vec<u8>>, a: &[u8])
    requires
        strictly_sorted(views_of(old(list)@)),
    ensures
        strictly_sorted(views_of(final(list)@)),
        set_of(views_of(final(list)@)) == set_of(views_of(old(list)@)).insert(a@),
        all_safe(views_of(old(list)@)) && safe_text(a@) ==> all_safe(views_of(final(list)@)),
{
    let ghost v0 = views_of(list@);
    let mut i: usize = 0;
    while i < list.len()
        invariant
            i <= list@.len(),
            *list == *old(list),
            forall|j: int| 0 <= j < i ==> lex_lt(v0[j], a@),
            strictly_sorted(v0),
            v0 == views_of(list@),
        decreases list@.len() - i,
    {
        match lex_cmp(list[i].as_slice(), a) {
            ByteOrd::Less => {
                i += 1;
            },
            ByteOrd::Equal => {
                proof {
                    assert(v0.contains(a@)) by {
                        assert(v0[i as int] == a@);
                    }
                    assert(set_of(v0).insert(a@) =~= set_of(v0));
                }
                return ;
            },
            ByteOrd::Greater => {
                let c = copy_bytes(a);
                proof {
                    lemma_views_after_insert(list@, c, i as int, a@);
                }
                list.insert(i, c);
                return ;
            },
        }
    }
    let c = copy_bytes(a);
    proof {
        lemma_views_after_insert(list@, c, list@.len() as int, a@);
    }
    let end = list.len();
    list.insert(end, c);
}

impl UNodeData {
    /// The direct addresses in their stored order.
    pub open spec fn addr_views(&self) -> Seq<Seq<u8>> {
        views_of(self.direct_addresses@)
    }

    /// The direct addresses as a set.
    pub open spec fn addr_set(&self) -> Set<Seq<u8>> {
        set_of(self.addr_views())
    }

    /// The relay observation.
    pub open spec fn relay_view(&self) -> Option<Seq<u8>> {
        match self.relay_url {
            Some(r) => Some(r@),
            None => None,
        }
    }

    /// The mathematical content of this record.
    pub open spec fn dv(&self) -> NodeDataView {
        NodeDataView { relay: self.relay_view(), addrs: self.addr_set() }
    }

    /// Well-formed: addresses strictly sorted, every text safe.
    pub open spec fn wf(&self) -> bool {
        &&& strictly_sorted(self.addr_views())
        &&& all_safe(self.addr_views())
        &&& match self.relay_view() {
            Some(r) => safe_text(r),
            None => true,
        }
    }

    /// A record with no relay and no direct addresses.
    pub fn empty() -> (r: UNodeData)
        ensures
            r.wf(),
            r.relay_view() is None,
            r.addr_set() == Set::<Seq<u8>>::empty(),
    {
        let r = UNodeData { relay_url: None, direct_addresses: Vec::new() };
        proof {
            assert(r.addr_set() =~= Set::<Seq<u8>>::empty());
        }
        r
    }

    /// Builds a record from observed parts, sorting and deduplicating the
    /// addresses; rejects text a snapshot could not hold verbatim.
    pub fn new(relay_url: Option<Vec<u8>>, direct_addresses: Vec<Vec<u8>>) -> (r: Result<
        UNodeData,
        SharedError,
    >)
        ensures
            match r {
                Ok(d) => {
                    &&& d.wf()
                    &&& d.relay_view() == (match relay_url {
                        Some(u) => Some(u@),
                        None => None::<Seq<u8>>,
                    })
                    &&& d.addr_set() == set_of(views_of(direct_addresses@))
                },
                Err(e) => e matches SharedError::InvalidIdentifier(_),
            },
    {
        let ghost relay0: Option<Seq<u8>> = match &relay_url {
            Some(u) => Some(u@),
            None => None,
        };
        if let Some(u) = &relay_url {
            if !is_safe_text(u.as_slice()) {
                return Err(SharedError::InvalidIdentifier(copy_bytes(u.as_slice())));
            }
        }
        let ghost input = views_of(direct_addresses@);
        let mut d = UNodeData { relay_url, direct_addresses: Vec::new() };
        proof {
            assert(d.addr_set() =~= set_of(input.take(0)));
        }
        let mut i: usize = 0;
        while i < direct_addresses.len()
            invariant
                i <= input.len(),
                input == views_of(direct_addresses@),
                strictly_sorted(d.addr_views()),
                all_safe(d.addr_views()),
                d.addr_set() == set_of(input.take(i as int)),
                d.relay_view() == relay0,
                match d.relay_view() {
                    Some(r) => safe_text(r),
                    None => true,
                },
            decreases input.len() - i,
        {
            let a = &direct_addresses[i];
            if !is_safe_text(a.as_slice()) {
                return Err(SharedError::InvalidIdentifier(copy_bytes(a.as_slice())));
            }
            insert_addr(&mut d.direct_addresses, a.as_slice());
            proof {
                lemma_set_of_push(input.take(i as int), input[i as int]);
                assert(input.take(i as int + 1) =~= input.take(i as int).push(input[i as int]));
            }
            i += 1;
        }
        proof {
            assert(input.take(input.len() as int) =~= input);
        }
        Ok(d)
    }

    /// A fresh record with the same relay and the same address list.
    pub fn dup(&self) -> (r: UNodeData)
        ensures
            r.relay_view() == self.relay_view(),
            r.addr_views() == self.addr_views(),
            r.dv() == self.dv(),
    {
        let relay_url = match &self.relay_url {
            Some(u) => Some(copy_bytes(u.as_slice())),
            None => None,
        };
        let mut direct_addresses: Vec<Vec<u8>> = Vec::new();
        let mut i: usize = 0;
        while i < self.direct_addresses.len()
            invariant
                i <= self.direct_addresses@.len(),
                views_of(direct_addresses@) == self.addr_views().take(i as int),
            decreases self.direct_addresses@.len() - i,
        {
            let c = copy_bytes(self.direct_addresses[i].as_slice());
            let ghost pre = direct_addresses@;
            let ghost cc = c;
            direct_addresses.push(c);
            proof {
                assert(direct_addresses@ == pre.push(cc));
                assert(views_of(pre) == self.addr_views().take(i as int));
                assert(views_of(pre).len() == pre.len());
                assert(pre.len() == i as int);
                assert forall|j: int| 0 <= j <= i as int implies views_of(direct_addresses@)[j]
                    == self.addr_views().take(i as int + 1)[j] by {
                    if j < i as int {
                        assert(pre.push(cc)[j] == pre[j]);
                        assert(views_of(pre)[j] == self.addr_views().take(i as int)[j]);
                    } else {
                        assert(pre.push(cc)[j] == cc);
                    }
                }
                assert(views_of(direct_addresses@) =~= self.addr_views().take(i as int + 1));
            }
            i += 1;
        }
        proof {
            assert(views_of(direct_addresses@) =~= self.addr_views());
        }
        let r = UNodeData { relay_url, direct_addresses };
        proof {
            assert(r.addr_views() =~= self.addr_views());
            assert(r.addr_set() =~= self.addr_set());
        }
        r
    }

    /// Merges a newer observation into this record: the newer relay wins
    /// when present, the direct address set grows by union.
    pub fn merge_from(&mut self, newer: &UNodeData)
        requires
            old(self).wf(),
            newer.wf(),
        ensures
            final(self).wf(),
            final(self).dv() == merged_view(old(self).dv(), newer.dv()),
    {
        if let Some(u) = &newer.relay_url {
            self.relay_url = Some(copy_bytes(u.as_slice()));
        }
        let ghost base = self.addr_set();
        let ghost incoming = newer.addr_views();
        proof {
            assert(base.union(set_of(incoming.take(0))) =~= base);
        }
        let mut i: usize = 0;
        while i < newer.direct_addresses.len()
            invariant
                i <= incoming.len(),
                incoming == newer.addr_views(),
                newer.wf(),
                base == old(self).addr_set(),
                strictly_sorted(self.addr_views()),
                all_safe(self.addr_views()),
                self.addr_set() == base.union(set_of(incoming.take(i as int))),
                self.relay_view() == (match newer.relay_view() {
                    Some(u) => Some(u),
                    None => old(self).relay_view(),
                }),
                old(self).wf(),
            decreases incoming.len() - i,
        {
            insert_addr(&mut self.direct_addresses, newer.direct_addresses[i].as_slice());
            proof {
                lemma_set_of_push(incoming.take(i as int), incoming[i as int]);
                assert(incoming.take(i as int + 1) =~= incoming.take(i as int).push(
                    incoming[i as int],
                ));
                assert(self.addr_set() =~= base.union(set_of(incoming.take(i as int + 1))));
            }
            i += 1;
        }
        proof {
            assert(incoming.take(incoming.len() as int) =~= incoming);
            assert(self.dv() == merged_view(old(self).dv(), newer.dv()));
        }
    }
}

} // verus!
