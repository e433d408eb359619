//! The orchestrator's own decisions: the logical-delete scheme, the
//! classification of a store lookup, the listing filter, the sync plan
//! over the peer directory, and how a shutdown's two sub-steps combine.
//!
//! The document store, blob store and transport do the I/O; these
//! functions decide what to ask of them and what their answers mean.
use vstd::prelude::*;

use crate::entry::{entry_views, EntryView, UEntry};
use crate::errors::SharedError;
use crate::events::{drain_feed, outcome_result, FeedItem};
use crate::hexid::{bytes_eq, copy_bytes, UHash, UNamespaceId, UNodeId};
use crate::node_data::UNodeData;
use crate::node_storage::NodeStorage;
use crate::order::{lex_lt, lemma_lex_transitive};

verus! {

/// The single byte of the logical-delete payload. A path is deleted by
/// writing this one-byte content; an entry whose content hash equals the
/// hash of this payload is classified as deleted.
pub const TOMBSTONE_BYTE: u8 = 0;

/// The logical-delete payload: exactly one reserved byte.
pub open spec fn tombstone_seq() -> Seq<u8> {
    seq![TOMBSTONE_BYTE]
}

/// The logical-delete payload as stored bytes. Deleting a file writes this
/// payload; the write preserves history for replication instead of erasing.
pub fn tombstone_payload() -> (r: Vec<u8>)
    ensures
        r@ == tombstone_seq(),
{
    let mut v: Vec<u8> = Vec::new();
    v.push(TOMBSTONE_BYTE);
    proof {
        assert(v@ =~= tombstone_seq());
    }
    v
}

/// The content digest the blob store assigns to given bytes; the same
/// bytes always receive the same digest.
pub uninterp spec fn digest_of(data: Seq<u8>) -> Seq<u8>;

/// Relies on blake3::hash: the digest is a pure function of the input
/// bytes alone, always 32 bytes wide.
#[verifier::external_body]
fn blake3_digest(data: &[u8]) -> (r: Vec<u8>)
    ensures
        r@ == digest_of(data@),
        r@.len() == 32,
{
    blake3::hash(data).as_bytes().to_vec()
}

/// True of the content hash that marks an entry as logically deleted.
pub open spec fn is_tombstone(h: Seq<u8>) -> bool {
    h == digest_of(tombstone_seq())
}

/// The sentinel hash: the digest of the one-byte tombstone payload. An
/// entry is classified as deleted exactly when its content hash equals
/// this value; content that happens to share the digest would be
/// misclassified, a known property of the scheme.
pub fn tombstone_hash() -> (r: UHash)
    ensures
        r@ == digest_of(tombstone_seq()),
        r.wf(),
{
    let p = tombstone_payload();
    UHash { bytes: blake3_digest(p.as_slice()) }
}

/// What a store lookup of one path means under a given sentinel hash.
pub enum LookupKind {
    /// No entry is stored under the path.
    Missing,
    /// The latest entry is the logical-delete marker.
    Tombstoned,
    /// The latest entry is live content at this hash.
    Value(Seq<u8>),
}

/// Classifies a lookup result: absent, deleted, or live at a hash.
pub open spec fn classify_lookup(found: Option<Seq<u8>>, sentinel: Seq<u8>) -> LookupKind {
    match found {
        None => LookupKind::Missing,
        Some(h) => if h == sentinel {
            LookupKind::Tombstoned
        } else {
            LookupKind::Value(h)
        },
    }
}

/// Decides what a read of `path` returns, given the store's lookup of the
/// latest entry under that path: the entry's content hash to fetch, or the
/// exact error owed — `EntryMissing` when nothing is stored,
/// `EntryTombstoned` when the latest entry is the delete marker.
pub fn read_decision(found: Option<&UEntry>, namespace: &UNamespaceId, path: &[u8]) -> (r: Result<
    UHash,
    SharedError,
>)
    ensures
        match classify_lookup(
            match found {
                Some(e) => Some(e@.hash),
                None => None,
            },
            digest_of(tombstone_seq()),
        ) {
            LookupKind::Missing => r matches Err(e) && crate::errors::is_entry_missing(
                e,
                namespace@,
                path@,
            ),
            LookupKind::Tombstoned => r matches Err(e) && crate::errors::is_entry_tombstoned(
                e,
                namespace@,
                path@,
            ),
            LookupKind::Value(h) => r matches Ok(v) && v@ == h,
        },
{
    match found {
        None => Err(
            SharedError::EntryMissing(namespace.dup(), copy_bytes(path)),
        ),
        Some(e) => {
            let sentinel = tombstone_hash();
            if bytes_eq(e.content_hash.bytes.as_slice(), sentinel.bytes.as_slice()) {
                Err(SharedError::EntryTombstoned(namespace.dup(), copy_bytes(path)))
            } else {
                Ok(e.content_hash.dup())
            }
        },
    }
}

/// The entries a listing shows: those whose content hash is not the
/// tombstone sentinel, in their stored order.
pub open spec fn visible_of(s: Seq<EntryView>) -> Seq<EntryView>
    decreases s.len(),
{
    if s.len() == 0 {
        Seq::empty()
    } else if is_tombstone(s[0].hash) {
        visible_of(s.drop_first())
    } else {
        seq![s[0]] + visible_of(s.drop_first())
    }
}

/// A listing shows exactly the non-deleted entries of its input.
pub proof fn lemma_visible_membership(s: Seq<EntryView>)
    ensures
        forall|e: EntryView| #[trigger] visible_of(s).contains(e) <==> (s.contains(e)
            && !is_tombstone(e.hash)),
    decreases s.len(),
{
    if s.len() > 0 {
        let rest = s.drop_first();
        lemma_visible_membership(rest);
        assert forall|e: EntryView| #[trigger] s.contains(e) implies (e == s[0] || rest.contains(
            e,
        )) by {
            let i = choose|i: int| 0 <= i < s.len() && s[i] == e;
            if i > 0 {
                assert(rest[i - 1] == e);
            }
        }
        assert forall|e: EntryView| #[trigger] rest.contains(e) implies s.contains(e) by {
            let i = choose|i: int| 0 <= i < rest.len() && rest[i] == e;
            assert(s[i + 1] == e);
        }
        assert(s.contains(s[0])) by {
            assert(s[0] == s[0]);
        }
        if !is_tombstone(s[0].hash) {
            let v = seq![s[0]] + visible_of(rest);
            assert forall|e: EntryView| #[trigger] v.contains(e) implies (e == s[0]
                || visible_of(rest).contains(e)) by {
                let i = choose|i: int| 0 <= i < v.len() && v[i] == e;
                if i > 0 {
                    assert(visible_of(rest)[i - 1] == e);
                }
            }
            assert forall|e: EntryView| #[trigger] visible_of(rest).contains(e) implies v.contains(
                e,
            ) by {
                let i = choose|i: int| 0 <= i < visible_of(rest).len() && visible_of(rest)[i] == e;
                assert(v[i + 1] == e);
            }
            assert(v.contains(s[0])) by {
                assert(v[0] == s[0]);
            }
        }
        assert forall|e: EntryView| #[trigger] visible_of(s).contains(e) <==> (s.contains(e)
            && !is_tombstone(e.hash)) by {
            if is_tombstone(s[0].hash) {
                assert(visible_of(s) == visible_of(rest));
                if visible_of(s).contains(e) {
                    assert(rest.contains(e) && !is_tombstone(e.hash));
                    assert(s.contains(e));
                }
                if s.contains(e) && !is_tombstone(e.hash) {
                    assert(e == s[0] || rest.contains(e));
                    assert(e != s[0]);
                    assert(visible_of(rest).contains(e));
                }
            } else {
                let v = seq![s[0]] + visible_of(rest);
                assert(visible_of(s) == v);
                if v.contains(e) {
                    if e == s[0] {
                        assert(s.contains(e) && !is_tombstone(e.hash));
                    } else {
                        assert(visible_of(rest).contains(e));
                        assert(rest.contains(e) && !is_tombstone(e.hash));
                        assert(s.contains(e));
                    }
                }
                if s.contains(e) && !is_tombstone(e.hash) {
                    if e == s[0] {
                        assert(v.contains(e));
                    } else {
                        assert(rest.contains(e));
                        assert(visible_of(rest).contains(e));
                        assert(v.contains(e));
                    }
                }
            }
        }
    }
}

/// Entries ordered strictly by path.
pub open spec fn sorted_by_path(s: Seq<EntryView>) -> bool {
    forall|i: int, j: int| 0 <= i < j < s.len() ==> lex_lt(s[i].key, s[j].key)
}

/// Filtering deleted entries keeps a listing ordered by path.
pub proof fn lemma_visible_sorted(s: Seq<EntryView>)
    requires
        sorted_by_path(s),
    ensures
        sorted_by_path(visible_of(s)),
    decreases s.len(),
{
    if s.len() > 0 {
        let rest = s.drop_first();
        assert forall|i: int, j: int| 0 <= i < j < rest.len() implies lex_lt(
            rest[i].key,
            rest[j].key,
        ) by {
            assert(rest[i] == s[i + 1] && rest[j] == s[j + 1]);
        }
        lemma_visible_sorted(rest);
        lemma_visible_membership(rest);
        if !is_tombstone(s[0].hash) {
            let v = seq![s[0]] + visible_of(rest);
            assert forall|i: int, j: int| 0 <= i < j < v.len() implies lex_lt(
                v[i].key,
                v[j].key,
            ) by {
                if i == 0 {
                    let e = visible_of(rest)[j - 1];
                    assert(visible_of(rest).contains(e));
                    let k = choose|k: int| 0 <= k < rest.len() && rest[k] == e;
                    assert(rest[k] == s[k + 1]);
                    assert(lex_lt(s[0].key, s[k + 1].key));
                } else {
                    assert(v[i] == visible_of(rest)[i - 1]);
                    assert(v[j] == visible_of(rest)[j - 1]);
                }
            }
        }
    }
}

/// The listing an open namespace returns: its latest entries with the
/// deleted ones removed, in their stored (path) order.
pub fn visible_files(entries: &Vec<UEntry>) -> (r: Vec<UEntry>)
    ensures
        entry_views(r@) == visible_of(entry_views(entries@)),
        sorted_by_path(entry_views(entries@)) ==> sorted_by_path(entry_views(r@)),
{
    let sentinel = tombstone_hash();
    let mut out: Vec<UEntry> = Vec::new();
    let ghost all = entry_views(entries@);
    proof {
        assert(all.skip(0) =~= all);
        assert(entry_views(out@) + visible_of(all.skip(0)) =~= visible_of(all));
    }
    let mut i: usize = 0;
    while i < entries.len()
        invariant
            i <= entries@.len(),
            all == entry_views(entries@),
            sentinel@ == digest_of(tombstone_seq()),
            entry_views(out@) + visible_of(all.skip(i as int)) == visible_of(all),
        decreases entries@.len() - i,
    {
        let ghost rest = all.skip(i as int);
        proof {
            assert(rest[0] == all[i as int]);
            assert(rest.drop_first() =~= all.skip(i as int + 1));
        }
        let e = &entries[i];
        if !bytes_eq(e.content_hash.bytes.as_slice(), sentinel.bytes.as_slice()) {
            let ghost out0 = entry_views(out@);
            let kept = e.dup();
            let ghost kv = kept@;
            out.push(kept);
            proof {
                assert(kv == all[i as int]);
                assert(entry_views(out@) =~= out0.push(kv));
                assert(out0.push(kv) + visible_of(all.skip(i as int + 1)) =~= out0 + (seq![
                    rest[0],
                ] + visible_of(rest.drop_first())));
            }
        }
        i += 1;
    }
    proof {
        assert(all.skip(all.len() as int).len() == 0);
        assert(entry_views(out@) + visible_of(all.skip(all.len() as int)) =~= entry_views(out@));
        lemma_visible_sorted_if(all);
    }
    out
}

/// Helper for `visible_files`: the order claim under its hypothesis.
proof fn lemma_visible_sorted_if(s: Seq<EntryView>)
    ensures
        sorted_by_path(s) ==> sorted_by_path(visible_of(s)),
{
    if sorted_by_path(s) {
        lemma_visible_sorted(s);
    }
}

/// What a sync run will do: nothing when no peer is known — success
/// without contacting the store — otherwise contact every known peer.
pub enum SyncPlan {
    /// The directory is empty: report success immediately.
    NoPeers,
    /// Ask the store to sync against every known peer's addresses.
    Contact(Vec<(UNodeId, UNodeData)>),
}

impl SyncPlan {
    /// True on the empty plan.
    pub fn is_no_peers(&self) -> (r: bool)
        ensures
            r == (self matches SyncPlan::NoPeers),
    {
        match self {
            SyncPlan::NoPeers => true,
            SyncPlan::Contact(_) => false,
        }
    }
}

/// Plans a sync from the peer directory: the empty directory yields
/// `NoPeers` (sync succeeds with nobody to contact); otherwise the plan
/// carries every record of the directory, in stored order.
pub fn plan_sync(storage: &NodeStorage) -> (r: SyncPlan)
    requires
        storage.wf(),
    ensures
        (r matches SyncPlan::NoPeers) == (storage.nodes@.len() == 0),
        match r {
            SyncPlan::NoPeers => true,
            SyncPlan::Contact(peers) => {
                &&& peers@.len() == storage.nodes@.len()
                &&& peers@.len() > 0
                &&& forall|i: int| 0 <= i < peers@.len() ==> (#[trigger] peers@[i]).0@
                    == storage.nodes@[i].0@ && peers@[i].1.relay_view()
                    == storage.nodes@[i].1.relay_view() && peers@[i].1.addr_views()
                    == storage.nodes@[i].1.addr_views()
            },
        },
{
    if storage.is_empty() {
        SyncPlan::NoPeers
    } else {
        SyncPlan::Contact(storage.snapshot_peers())
    }
}

/// The readable content of a share ticket: the namespace it grants access
/// to and the issuing node's known addresses. The wire form of a ticket is
/// the store's own capability string; this type holds what the
/// orchestrator's logic reads out of it.
#[derive(Debug)]
pub struct UDocTicket {
    pub namespace: UNamespaceId,
    pub peers: Vec<(UNodeId, UNodeData)>,
}

impl UDocTicket {
    /// Well-formed: a full-width namespace and well-formed peer records.
    pub open spec fn wf(&self) -> bool {
        &&& self.namespace.wf()
        &&& forall|i: int| 0 <= i < self.peers@.len() ==> (#[trigger] self.peers@[i]).0.wf()
            && self.peers@[i].1.wf()
    }

    /// Import pre-seeding: before the store is asked to import, every peer
    /// address embedded in the ticket enters the directory, so the
    /// namespace is reachable before any discovery event arrives.
    pub fn preseed(&self, storage: &mut NodeStorage)
        requires
            old(storage).wf(),
            self.wf(),
        ensures
            final(storage).wf(),
            final(storage).directory() == crate::node_storage::upsert_dir_all(
                old(storage).directory(),
                self.peers@,
            ),
    {
        storage.upsert_all(&self.peers);
    }
}

/// Finishes a sync run: under the empty plan success is reported at once,
/// no collaborator contacted; otherwise the feed the store handed back,
/// drained in order, decides — and may report success at the early exit,
/// before all remote content has been pulled.
pub fn sync_session(plan: &SyncPlan, feed: &Vec<FeedItem>) -> (r: Result<(), SharedError>)
    ensures
        r == crate::model::sync_session_spec((plan matches SyncPlan::NoPeers), feed@),
{
    match plan {
        SyncPlan::NoPeers => Ok(()),
        SyncPlan::Contact(_) => outcome_result(drain_feed(feed)),
    }
}

/// Combines the two shutdown sub-steps — stopping the transport and
/// saving the directory, both always attempted — into one result: the
/// first error observed, with the transport's reported first.
pub fn shutdown_outcome(
    router: Result<(), SharedError>,
    save: Result<(), SharedError>,
) -> (r: Result<(), SharedError>)
    ensures
        match router {
            Err(e) => r == Err::<(), SharedError>(e),
            Ok(()) => r == save,
        },
{
    match router {
        Err(e) => Err(e),
        Ok(()) => save,
    }
}

} // verus!
