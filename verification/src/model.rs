//! What the orchestrator's operations mean end to end, stated over a model
//! of the external collaborators' documented behaviour: the document store
//! keeps, per namespace, the latest entry under each path; the blob store
//! keeps content under the hash the store assigned to it; a completed sync
//! of one namespace hands the receiver the provider's entries and content.
//!
//! The model takes every content hash as a parameter — it is whatever the
//! store assigned — so the laws hold for any hash assignment; the one the
//! running system uses is `digest_of` in `manager`. Laws about reads are
//! stated against an arbitrary `sentinel`, the hash of the logical-delete
//! payload.
use vstd::prelude::*;

use crate::entry::EntryView;
use crate::errors::SharedError;
use crate::events::{drain_spec, outcome_result_spec, FeedItem};
use crate::manager::{classify_lookup, tombstone_seq, LookupKind};
use crate::manager::{digest_of, is_tombstone, lemma_visible_membership, visible_of};

verus! {

/// The collaborators' state as the contracts see it: per namespace the
/// latest entry under each path, and the stored content under each hash.
pub struct StoreModel {
    pub namespaces: Map<Seq<u8>, Map<Seq<u8>, EntryView>>,
    pub blobs: Map<Seq<u8>, Seq<u8>>,
}

/// Every entry's content hash has stored content behind it.
pub open spec fn store_wf(s: StoreModel) -> bool {
    forall|ns: Seq<u8>, p: Seq<u8>|
        s.namespaces.dom().contains(ns) && #[trigger] s.namespaces[ns].dom().contains(p)
            ==> s.blobs.dom().contains(s.namespaces[ns][p].hash)
}

/// A fresh namespace: present and empty.
pub open spec fn create_namespace_model(s: StoreModel, ns: Seq<u8>) -> StoreModel {
    StoreModel { namespaces: s.namespaces.insert(ns, Map::empty()), blobs: s.blobs }
}

/// Whether a write to `ns` is accepted: only a namespace created or opened
/// locally can be written.
pub open spec fn write_accepted(s: StoreModel, ns: Seq<u8>) -> bool {
    s.namespaces.dom().contains(ns)
}

/// A write: the store resolves `path` to a new latest entry carrying the
/// hash it assigned to `data`, and keeps `data` under that hash. A write
/// to an unknown namespace is rejected and changes nothing.
pub open spec fn write_file_model(
    s: StoreModel,
    ns: Seq<u8>,
    path: Seq<u8>,
    data: Seq<u8>,
    hash: Seq<u8>,
    author: Seq<u8>,
    ts: u64,
) -> StoreModel {
    if s.namespaces.dom().contains(ns) {
        StoreModel {
            namespaces: s.namespaces.insert(
                ns,
                s.namespaces[ns].insert(
                    path,
                    EntryView {
                        key: path,
                        author,
                        timestamp: ts,
                        hash,
                        len: data.len() as u64,
                        namespace: ns,
                    },
                ),
            ),
            blobs: s.blobs.insert(hash, data),
        }
    } else {
        s
    }
}

/// A logical delete: a write of the one-byte tombstone payload, whose
/// assigned hash is the sentinel. History is preserved for replication.
pub open spec fn delete_file_model(
    s: StoreModel,
    ns: Seq<u8>,
    path: Seq<u8>,
    sentinel: Seq<u8>,
    author: Seq<u8>,
    ts: u64,
) -> StoreModel {
    write_file_model(s, ns, path, tombstone_seq(), sentinel, author, ts)
}

/// What a read returns.
pub enum ReadModel {
    /// The stored content.
    Bytes(Seq<u8>),
    /// The namespace was never created or opened locally.
    NoNamespace,
    /// No entry under the path.
    Missing,
    /// The latest entry under the path is the logical-delete marker.
    Tombstoned,
}

/// A read of `path`: the namespace must resolve, the latest entry under
/// the path is classified against the sentinel, and live content is
/// fetched from the blob store by its hash.
pub open spec fn read_file_model(
    s: StoreModel,
    ns: Seq<u8>,
    path: Seq<u8>,
    sentinel: Seq<u8>,
) -> ReadModel {
    if !s.namespaces.dom().contains(ns) {
        ReadModel::NoNamespace
    } else {
        match classify_lookup(
            if s.namespaces[ns].dom().contains(path) {
                Some(s.namespaces[ns][path].hash)
            } else {
                None
            },
            sentinel,
        ) {
            LookupKind::Missing => ReadModel::Missing,
            LookupKind::Tombstoned => ReadModel::Tombstoned,
            LookupKind::Value(h) => ReadModel::Bytes(s.blobs[h]),
        }
    }
}

/// The paths a listing of `ns` shows: those whose latest entry is not the
/// logical-delete marker.
pub open spec fn visible_paths_model(s: StoreModel, ns: Seq<u8>, sentinel: Seq<u8>) -> Set<
    Seq<u8>,
> {
    Set::new(
        |p: Seq<u8>|
            s.namespaces.dom().contains(ns) && s.namespaces[ns].dom().contains(p)
                && s.namespaces[ns][p].hash != sentinel,
    )
}

/// A completed sync or import of one namespace: the receiver takes over
/// the provider's entries for that namespace and the provider's stored
/// content, its own other namespaces untouched.
pub open spec fn sync_namespace_model(
    local: StoreModel,
    remote: StoreModel,
    ns: Seq<u8>,
) -> StoreModel {
    if remote.namespaces.dom().contains(ns) {
        StoreModel {
            namespaces: local.namespaces.insert(ns, remote.namespaces[ns]),
            blobs: local.blobs.union_prefer_right(remote.blobs),
        }
    } else {
        local
    }
}

/// What a sync run reports: with no known peer it succeeds at once without
/// contacting the store; otherwise the drained feed decides.
pub open spec fn sync_session_spec(no_peers: bool, feed: Seq<FeedItem>) -> Result<
    (),
    SharedError,
> {
    if no_peers {
        Ok(())
    } else {
        outcome_result_spec(drain_spec(feed))
    }
}

/// Some entry of the list is stored under `p`.
pub open spec fn listing_has(l: Seq<EntryView>, p: Seq<u8>) -> bool {
    exists|i: int| 0 <= i < l.len() && (#[trigger] l[i]).key == p
}

/// The listing filter agrees with the model: when the store hands back one
/// entry per stored path of a namespace, each carrying that path's hash,
/// the filtered listing shows exactly the namespace's visible paths.
pub proof fn lemma_listing_matches_model(s: StoreModel, ns: Seq<u8>, listing: Seq<EntryView>)
    requires
        s.namespaces.dom().contains(ns),
        forall|i: int| 0 <= i < listing.len() ==> s.namespaces[ns].dom().contains(
            (#[trigger] listing[i]).key,
        ) && listing[i].hash == s.namespaces[ns][listing[i].key].hash,
        forall|p: Seq<u8>| #[trigger] s.namespaces[ns].dom().contains(p) ==> listing_has(
            listing,
            p,
        ),
    ensures
        forall|p: Seq<u8>| #[trigger] visible_paths_model(
            s,
            ns,
            digest_of(tombstone_seq()),
        ).contains(p) <==> listing_has(visible_of(listing), p),
{
    let sentinel = digest_of(tombstone_seq());
    lemma_visible_membership(listing);
    assert forall|p: Seq<u8>| #[trigger] visible_paths_model(s, ns, sentinel).contains(
        p,
    ) implies listing_has(visible_of(listing), p) by {
        let i = choose|i: int| 0 <= i < listing.len() && (#[trigger] listing[i]).key == p;
        let e = listing[i];
        assert(listing.contains(e));
        assert(!is_tombstone(e.hash));
        assert(visible_of(listing).contains(e));
        let j = choose|j: int| 0 <= j < visible_of(listing).len() && visible_of(listing)[j] == e;
        assert((visible_of(listing)[j]).key == p);
    }
    assert forall|p: Seq<u8>| listing_has(visible_of(listing), p) implies #[trigger]
    visible_paths_model(s, ns, sentinel).contains(p) by {
        let i = choose|i: int|
            0 <= i < visible_of(listing).len() && (#[trigger] visible_of(listing)[i]).key == p;
        let e = visible_of(listing)[i];
        assert(visible_of(listing).contains(e));
        assert(listing.contains(e) && !is_tombstone(e.hash));
        let j = choose|j: int| 0 <= j < listing.len() && listing[j] == e;
        assert(s.namespaces[ns].dom().contains(e.key));
        assert(e.hash == s.namespaces[ns][e.key].hash);
    }
}

/// A created namespace resolves: reads on it report a missing entry, not a
/// missing namespace, and its listing starts empty.
pub proof fn lemma_create_namespace(s: StoreModel, ns: Seq<u8>, path: Seq<u8>, sentinel: Seq<u8>)
    ensures
        write_accepted(create_namespace_model(s, ns), ns),
        read_file_model(create_namespace_model(s, ns), ns, path, sentinel) == ReadModel::Missing,
        visible_paths_model(create_namespace_model(s, ns), ns, sentinel) == Set::<Seq<u8>>::empty(),
        store_wf(s) ==> store_wf(create_namespace_model(s, ns)),
{
    let s2 = create_namespace_model(s, ns);
    assert(visible_paths_model(s2, ns, sentinel) =~= Set::<Seq<u8>>::empty());
    if store_wf(s) {
        assert forall|n2: Seq<u8>, p: Seq<u8>|
            s2.namespaces.dom().contains(n2) && #[trigger] s2.namespaces[n2].dom().contains(
                p,
            ) implies s2.blobs.dom().contains(s2.namespaces[n2][p].hash) by {
            if n2 != ns {
                assert(s.namespaces[n2].dom().contains(p));
            }
        }
    }
}

/// A write keeps the store well-formed.
pub proof fn lemma_write_preserves_wf(
    s: StoreModel,
    ns: Seq<u8>,
    path: Seq<u8>,
    data: Seq<u8>,
    hash: Seq<u8>,
    author: Seq<u8>,
    ts: u64,
)
    requires
        store_wf(s),
    ensures
        store_wf(write_file_model(s, ns, path, data, hash, author, ts)),
{
    let s2 = write_file_model(s, ns, path, data, hash, author, ts);
    if s.namespaces.dom().contains(ns) {
        assert forall|n2: Seq<u8>, p: Seq<u8>|
            s2.namespaces.dom().contains(n2) && #[trigger] s2.namespaces[n2].dom().contains(
                p,
            ) implies s2.blobs.dom().contains(s2.namespaces[n2][p].hash) by {
            if n2 == ns {
                if p != path {
                    assert(s.namespaces[ns].dom().contains(p));
                }
            } else {
                assert(s.namespaces[n2].dom().contains(p));
            }
        }
    }
}

/// Round trip: after writing content under a path in a known namespace,
/// reading that path yields exactly the written content. Holds whenever
/// the content's assigned hash is not the tombstone sentinel; content
/// whose hash is the sentinel — the tombstone payload itself is such
/// content — reads back as deleted instead.
pub proof fn lemma_write_read_round_trip(
    s: StoreModel,
    ns: Seq<u8>,
    path: Seq<u8>,
    data: Seq<u8>,
    hash: Seq<u8>,
    author: Seq<u8>,
    ts: u64,
    sentinel: Seq<u8>,
)
    requires
        store_wf(s),
        s.namespaces.dom().contains(ns),
        data.len() > 0,
        hash != sentinel,
    ensures
        read_file_model(write_file_model(s, ns, path, data, hash, author, ts), ns, path, sentinel)
            == ReadModel::Bytes(data),
        store_wf(write_file_model(s, ns, path, data, hash, author, ts)),
{
    lemma_write_preserves_wf(s, ns, path, data, hash, author, ts);
}

/// Logical delete: after deleting a path, reading it reports the entry as
/// tombstoned — not missing — and a listing of the namespace omits it.
pub proof fn lemma_delete_then_read(
    s: StoreModel,
    ns: Seq<u8>,
    path: Seq<u8>,
    sentinel: Seq<u8>,
    author: Seq<u8>,
    ts: u64,
)
    requires
        store_wf(s),
        s.namespaces.dom().contains(ns),
    ensures
        ({
            let d = delete_file_model(s, ns, path, sentinel, author, ts);
            &&& read_file_model(d, ns, path, sentinel) == ReadModel::Tombstoned
            &&& !visible_paths_model(d, ns, sentinel).contains(path)
            &&& store_wf(d)
        }),
{
    lemma_write_preserves_wf(s, ns, path, tombstone_seq(), sentinel, author, ts);
}

/// Unknown namespace: every per-namespace operation on a namespace never
/// created or opened locally reports it missing, and a rejected write
/// changes nothing.
pub proof fn lemma_unknown_namespace(
    s: StoreModel,
    ns: Seq<u8>,
    path: Seq<u8>,
    data: Seq<u8>,
    hash: Seq<u8>,
    author: Seq<u8>,
    ts: u64,
    sentinel: Seq<u8>,
)
    requires
        !s.namespaces.dom().contains(ns),
    ensures
        read_file_model(s, ns, path, sentinel) == ReadModel::NoNamespace,
        !write_accepted(s, ns),
        write_file_model(s, ns, path, data, hash, author, ts) == s,
        visible_paths_model(s, ns, sentinel) == Set::<Seq<u8>>::empty(),
{
    assert(visible_paths_model(s, ns, sentinel) =~= Set::<Seq<u8>>::empty());
}

/// Empty-peer sync: with zero known peers a sync run reports success
/// whatever the feed would have said, because no collaborator is
/// contacted at all.
pub proof fn lemma_empty_peer_sync(feed: Seq<FeedItem>)
    ensures
        sync_session_spec(true, feed) == Ok::<(), SharedError>(()),
{
}

/// Share and import, end to end: a provider writes content under a path
/// and hands out a ticket for the namespace; after the receiver's import
/// and sync of that namespace completes, reading the path on the receiver
/// yields exactly the provider's content.
pub proof fn lemma_import_sync_round_trip(
    provider: StoreModel,
    receiver: StoreModel,
    ns: Seq<u8>,
    path: Seq<u8>,
    data: Seq<u8>,
    hash: Seq<u8>,
    author: Seq<u8>,
    ts: u64,
    sentinel: Seq<u8>,
)
    requires
        store_wf(provider),
        provider.namespaces.dom().contains(ns),
        data.len() > 0,
        hash != sentinel,
    ensures
        ({
            let p2 = write_file_model(provider, ns, path, data, hash, author, ts);
            let r2 = sync_namespace_model(receiver, p2, ns);
            read_file_model(r2, ns, path, sentinel) == ReadModel::Bytes(data)
        }),
{
}

/// A deletion replicates as a deletion: after the provider writes and
/// then deletes a path, a receiver that imports and syncs the namespace
/// observes the path as tombstoned — not missing — and its listing
/// omits the path.
pub proof fn lemma_delete_replicates(
    provider: StoreModel,
    receiver: StoreModel,
    ns: Seq<u8>,
    path: Seq<u8>,
    data: Seq<u8>,
    hash: Seq<u8>,
    author: Seq<u8>,
    ts: u64,
    ts2: u64,
    sentinel: Seq<u8>,
)
    requires
        store_wf(provider),
        provider.namespaces.dom().contains(ns),
    ensures
        ({
            let p2 = write_file_model(provider, ns, path, data, hash, author, ts);
            let p3 = delete_file_model(p2, ns, path, sentinel, author, ts2);
            let r2 = sync_namespace_model(receiver, p3, ns);
            &&& read_file_model(r2, ns, path, sentinel) == ReadModel::Tombstoned
            &&& !visible_paths_model(r2, ns, sentinel).contains(path)
        }),
{
}

} // verus!
