//! The persisted form of the peer directory: one JSON object mapping each
//! node identifier, as 64 lower-case hex digits, to an object holding the
//! relay address (string or null) and the sorted array of direct
//! addresses. The encoder writes exactly this canonical form — no
//! whitespace, records sorted by identifier — and the decoder accepts
//! exactly it, so a snapshot round-trips bit for bit.
use vstd::prelude::*;

use crate::hexid::{copy_bytes, format_hex, hex_of, is_lower_hex_text, lemma_hex_round_trip, unhex, UNodeId};
use crate::node_data::{all_safe, safe_text, UNodeData};
use crate::node_storage::NodeStorage;
use crate::order::{lex_cmp, lex_lt, strictly_sorted, views_of, ByteOrd};

verus! {

/// One record as it stands in a snapshot: raw identifier bytes, relay
/// observation, direct addresses in stored order.
pub struct SnapshotRecord {
    pub id: Seq<u8>,
    pub relay: Option<Seq<u8>>,
    pub addrs: Seq<Seq<u8>>,
}

/// The identifiers of snapshot records, in order.
pub open spec fn ids_of(v: Seq<SnapshotRecord>) -> Seq<Seq<u8>> {
    Seq::new(v.len(), |i: int| v[i].id)
}

/// A record a snapshot can hold: full-width identifier, sorted safe
/// addresses, safe relay text.
pub open spec fn snapshot_record_wf(r: SnapshotRecord) -> bool {
    &&& r.id.len() == 32
    &&& strictly_sorted(r.addrs)
    &&& all_safe(r.addrs)
    &&& match r.relay {
        Some(u) => safe_text(u),
        None => true,
    }
}

/// A well-formed snapshot: well-formed records, sorted by identifier.
pub open spec fn snapshot_wf(v: Seq<SnapshotRecord>) -> bool {
    &&& forall|i: int| 0 <= i < v.len() ==> snapshot_record_wf(#[trigger] v[i])
    &&& strictly_sorted(ids_of(v))
}

/// The bytes of `null`.
pub open spec fn null_lit() -> Seq<u8> {
    seq![110u8, 117u8, 108u8, 108u8]
}

/// The bytes of `"relayUrl":`.
pub open spec fn relay_key() -> Seq<u8> {
    seq![34u8, 114u8, 101u8, 108u8, 97u8, 121u8, 85u8, 114u8, 108u8, 34u8, 58u8]
}

/// The bytes of `,"directAddresses":[`.
pub open spec fn addrs_key() -> Seq<u8> {
    seq![
        44u8,
        34u8,
        100u8,
        105u8,
        114u8,
        101u8,
        99u8,
        116u8,
        65u8,
        100u8,
        100u8,
        114u8,
        101u8,
        115u8,
        115u8,
        101u8,
        115u8,
        34u8,
        58u8,
        91u8,
    ]
}

/// Safe text in its JSON string form; safe text needs no escaping.
pub open spec fn json_string(c: Seq<u8>) -> Seq<u8> {
    seq![34u8] + c + seq![34u8]
}

/// The relay field: `null`, or the address as a string.
pub open spec fn json_relay(r: Option<Seq<u8>>) -> Seq<u8> {
    match r {
        None => null_lit(),
        Some(u) => json_string(u),
    }
}

/// The second and later elements of the address array, each preceded by a
/// comma.
pub open spec fn json_addrs_rest(a: Seq<Seq<u8>>) -> Seq<u8>
    decreases a.len(),
{
    if a.len() == 0 {
        Seq::empty()
    } else {
        seq![44u8] + json_string(a[0]) + json_addrs_rest(a.drop_first())
    }
}

/// The elements of the address array, comma-separated.
pub open spec fn json_addrs(a: Seq<Seq<u8>>) -> Seq<u8> {
    if a.len() == 0 {
        Seq::empty()
    } else {
        json_string(a[0]) + json_addrs_rest(a.drop_first())
    }
}

/// One record's value object.
pub open spec fn json_data(relay: Option<Seq<u8>>, addrs: Seq<Seq<u8>>) -> Seq<u8> {
    seq![123u8] + relay_key() + json_relay(relay) + addrs_key() + json_addrs(addrs) + seq![
        93u8,
        125u8,
    ]
}

/// One record: hex identifier key, colon, value object.
pub open spec fn json_record(r: SnapshotRecord) -> Seq<u8> {
    json_string(hex_of(r.id)) + seq![58u8] + json_data(r.relay, r.addrs)
}

/// The second and later records, each preceded by a comma.
pub open spec fn json_records_rest(v: Seq<SnapshotRecord>) -> Seq<u8>
    decreases v.len(),
{
    if v.len() == 0 {
        Seq::empty()
    } else {
        seq![44u8] + json_record(v[0]) + json_records_rest(v.drop_first())
    }
}

/// The records, comma-separated.
pub open spec fn json_records(v: Seq<SnapshotRecord>) -> Seq<u8> {
    if v.len() == 0 {
        Seq::empty()
    } else {
        json_record(v[0]) + json_records_rest(v.drop_first())
    }
}

/// A whole snapshot: the records wrapped in one object.
pub open spec fn json_snapshot(v: Seq<SnapshotRecord>) -> Seq<u8> {
    seq![123u8] + json_records(v) + seq![125u8]
}

/// `s` stands in `t` at position `i`.
pub open spec fn starts_at(t: Seq<u8>, i: int, s: Seq<u8>) -> bool {
    0 <= i && i + s.len() <= t.len() && t.subrange(i, i + s.len()) == s
}

/// A match of a concatenation is a match of each part in turn.
pub proof fn lemma_starts_at_concat(t: Seq<u8>, i: int, a: Seq<u8>, b: Seq<u8>)
    requires
        starts_at(t, i, a + b),
    ensures
        starts_at(t, i, a),
        starts_at(t, i + a.len(), b),
{
    let ab = a + b;
    assert forall|k: int| 0 <= k < a.len() implies t.subrange(i, i + a.len())[k] == a[k] by {
        assert(t[i + k] == t.subrange(i, i + ab.len())[k]);
        assert(ab[k] == a[k]);
    }
    assert(t.subrange(i, i + a.len()) =~= a);
    assert forall|k: int| 0 <= k < b.len() implies t.subrange(
        i + a.len(),
        i + a.len() + b.len(),
    )[k] == b[k] by {
        assert(t[i + a.len() + k] == t.subrange(i, i + ab.len())[a.len() + k]);
        assert(ab[a.len() + k] == b[k]);
    }
    assert(t.subrange(i + a.len(), i + a.len() + b.len()) =~= b);
}

/// The byte of `t` under a match is the byte of the matched string.
pub proof fn lemma_starts_at_index(t: Seq<u8>, i: int, s: Seq<u8>, k: int)
    requires
        starts_at(t, i, s),
        0 <= k < s.len(),
    ensures
        t[i + k] == s[k],
{
    assert(t.subrange(i, i + s.len())[k] == s[k]);
}

/// A fixed literal at position `i`: the position after it, or `None`.
pub open spec fn sp_lit(t: Seq<u8>, i: int, lit: Seq<u8>) -> Option<int> {
    if starts_at(t, i, lit) {
        Some(i + lit.len())
    } else {
        None
    }
}

/// Scans a JSON string's content up to its closing quote, accepting only
/// safe text: the content and the position after the quote.
pub open spec fn sp_scan(t: Seq<u8>, i: int) -> Option<(Seq<u8>, int)>
    decreases t.len() - i,
{
    if i < 0 || i >= t.len() {
        None
    } else if t[i] == 34 {
        Some((Seq::empty(), i + 1))
    } else if 32 <= t[i] <= 126 && t[i] != 92 {
        match sp_scan(t, i + 1) {
            Some((c, j)) => Some((seq![t[i]] + c, j)),
            None => None,
        }
    } else {
        None
    }
}

/// A JSON string: opening quote, safe content, closing quote.
pub open spec fn sp_string(t: Seq<u8>, i: int) -> Option<(Seq<u8>, int)> {
    if 0 <= i < t.len() && t[i] == 34 {
        sp_scan(t, i + 1)
    } else {
        None
    }
}

/// The relay field: `null` or a string.
pub open spec fn sp_relay(t: Seq<u8>, i: int) -> Option<(Option<Seq<u8>>, int)> {
    match sp_lit(t, i, null_lit()) {
        Some(j) => Some((None, j)),
        None => match sp_string(t, i) {
            Some((c, j)) => Some((Some(c), j)),
            None => None,
        },
    }
}

/// The rest of the address array after its first element: strictly
/// ascending strings, each after a comma, closed by `]`.
pub open spec fn sp_addrs_rest(t: Seq<u8>, i: int, prev: Seq<u8>) -> Option<(Seq<Seq<u8>>, int)>
    decreases t.len() - i,
{
    if i < 0 || i >= t.len() {
        None
    } else if t[i] == 93 {
        Some((Seq::empty(), i + 1))
    } else if t[i] == 44 {
        match sp_string(t, i + 1) {
            Some((c, j)) => if lex_lt(prev, c) && i + 1 < j && j <= t.len() {
                match sp_addrs_rest(t, j, c) {
                    Some((cs, k)) => Some((seq![c] + cs, k)),
                    None => None,
                }
            } else {
                None
            },
            None => None,
        }
    } else {
        None
    }
}

/// The address array after its opening bracket: possibly empty, strictly
/// ascending, closed by `]`.
pub open spec fn sp_addrs(t: Seq<u8>, i: int) -> Option<(Seq<Seq<u8>>, int)> {
    if 0 <= i < t.len() && t[i] == 93 {
        Some((Seq::empty(), i + 1))
    } else {
        match sp_string(t, i) {
            Some((c, j)) => if i < j && j <= t.len() {
                match sp_addrs_rest(t, j, c) {
                    Some((cs, k)) => Some((seq![c] + cs, k)),
                    None => None,
                }
            } else {
                None
            },
            None => None,
        }
    }
}

/// A record key: exactly 64 lower-case hex digits as a string, denoting
/// the raw identifier bytes.
pub open spec fn sp_key(t: Seq<u8>, i: int) -> Option<(Seq<u8>, int)> {
    match sp_string(t, i) {
        Some((c, j)) => if c.len() == 64 && is_lower_hex_text(c) {
            Some((unhex(c), j))
        } else {
            None
        },
        None => None,
    }
}

/// A record's value object.
pub open spec fn sp_data(t: Seq<u8>, i: int) -> Option<((Option<Seq<u8>>, Seq<Seq<u8>>), int)> {
    match sp_lit(t, i, seq![123u8] + relay_key()) {
        Some(j) => match sp_relay(t, j) {
            Some((rel, k)) => match sp_lit(t, k, addrs_key()) {
                Some(l) => match sp_addrs(t, l) {
                    Some((addrs, m)) => match sp_lit(t, m, seq![125u8]) {
                        Some(n) => Some(((rel, addrs), n)),
                        None => None,
                    },
                    None => None,
                },
                None => None,
            },
            None => None,
        },
        None => None,
    }
}

/// One record: key, colon, value object.
pub open spec fn sp_record(t: Seq<u8>, i: int) -> Option<(SnapshotRecord, int)> {
    match sp_key(t, i) {
        Some((kb, j)) => match sp_lit(t, j, seq![58u8]) {
            Some(k) => match sp_data(t, k) {
                Some((d, m)) => Some((SnapshotRecord { id: kb, relay: d.0, addrs: d.1 }, m)),
                None => None,
            },
            None => None,
        },
        None => None,
    }
}

/// The records after the first: strictly ascending identifiers, each after
/// a comma, closed by the object's `}`.
pub open spec fn sp_records_rest(t: Seq<u8>, i: int, prev: Seq<u8>) -> Option<
    (Seq<SnapshotRecord>, int),
>
    decreases t.len() - i,
{
    if i < 0 || i >= t.len() {
        None
    } else if t[i] == 125 {
        Some((Seq::empty(), i + 1))
    } else if t[i] == 44 {
        match sp_record(t, i + 1) {
            Some((e, j)) => if lex_lt(prev, e.id) && i + 1 < j && j <= t.len() {
                match sp_records_rest(t, j, e.id) {
                    Some((es, k)) => Some((seq![e] + es, k)),
                    None => None,
                }
            } else {
                None
            },
            None => None,
        }
    } else {
        None
    }
}

/// A whole snapshot: the canonical object, consuming the buffer exactly.
pub open spec fn sp_snapshot(t: Seq<u8>) -> Option<Seq<SnapshotRecord>> {
    if t.len() < 1 || t[0] != 123 {
        None
    } else if 1 < t.len() && t[1] == 125 {
        if t.len() == 2 {
            Some(Seq::empty())
        } else {
            None
        }
    } else {
        match sp_record(t, 1) {
            Some((e, j)) => if 1 < j && j <= t.len() {
                match sp_records_rest(t, j, e.id) {
                    Some((es, k)) => if k == t.len() {
                        Some(seq![e] + es)
                    } else {
                        None
                    },
                    None => None,
                }
            } else {
                None
            },
            None => None,
        }
    }
}

/// Lower-case hex text is safe snapshot text.
proof fn lemma_hex_safe(c: Seq<u8>)
    requires
        is_lower_hex_text(c),
    ensures
        safe_text(c),
{
    assert forall|i: int| 0 <= i < c.len() implies 32 <= c[i] <= 126 && c[i] != 34 && c[i]
        != 92 by {
        assert(crate::hexid::is_lower_hex_ascii(c[i]));
    }
}

/// A match shifted past its first byte.
proof fn lemma_starts_at_drop(t: Seq<u8>, i: int, s: Seq<u8>)
    requires
        starts_at(t, i, s),
        s.len() > 0,
    ensures
        starts_at(t, i + 1, s.drop_first()),
{
    assert forall|k: int| 0 <= k < s.len() - 1 implies t.subrange(i + 1, i + s.len())[k]
        == s.drop_first()[k] by {
        assert(t[i + 1 + k] == t.subrange(i, i + s.len())[k + 1]);
    }
    assert(t.subrange(i + 1, i + s.len()) =~= s.drop_first());
}

/// Scanning the encoded form of safe content stops exactly at its closing
/// quote and returns the content.
proof fn lemma_sp_scan_at(t: Seq<u8>, i: int, c: Seq<u8>)
    requires
        safe_text(c),
        starts_at(t, i, c + seq![34u8]),
    ensures
        sp_scan(t, i) == Some((c, i + c.len() + 1)),
    decreases c.len(),
{
    let s = c + seq![34u8];
    lemma_starts_at_index(t, i, s, 0);
    if c.len() == 0 {
        assert(t[i] == 34);
    } else {
        assert(t[i] == c[0]);
        assert(32 <= c[0] <= 126 && c[0] != 34 && c[0] != 92);
        lemma_starts_at_drop(t, i, s);
        assert(s.drop_first() =~= c.drop_first() + seq![34u8]);
        assert forall|k: int| 0 <= k < c.drop_first().len() implies 32 <= c.drop_first()[k] <= 126
            && c.drop_first()[k] != 34 && c.drop_first()[k] != 92 by {
            assert(c.drop_first()[k] == c[k + 1]);
        }
        lemma_sp_scan_at(t, i + 1, c.drop_first());
        assert(seq![t[i]] + c.drop_first() =~= c);
    }
}

/// A JSON string parses back to its content.
proof fn lemma_sp_string_at(t: Seq<u8>, i: int, c: Seq<u8>)
    requires
        safe_text(c),
        starts_at(t, i, json_string(c)),
    ensures
        sp_string(t, i) == Some((c, i + json_string(c).len())),
{
    assert(json_string(c) =~= seq![34u8] + (c + seq![34u8]));
    lemma_starts_at_concat(t, i, seq![34u8], c + seq![34u8]);
    lemma_starts_at_index(t, i, seq![34u8], 0);
    lemma_sp_scan_at(t, i + 1, c);
}

/// The relay field parses back to the observation.
proof fn lemma_sp_relay_at(t: Seq<u8>, i: int, r: Option<Seq<u8>>)
    requires
        match r {
            Some(u) => safe_text(u),
            None => true,
        },
        starts_at(t, i, json_relay(r)),
    ensures
        sp_relay(t, i) == Some((r, i + json_relay(r).len())),
{
    match r {
        None => {
        },
        Some(u) => {
            lemma_starts_at_index(t, i, json_relay(r), 0);
            assert(json_string(u)[0] == 34);
            if starts_at(t, i, null_lit()) {
                lemma_starts_at_index(t, i, null_lit(), 0);
                assert(false);
            }
            lemma_sp_string_at(t, i, u);
        },
    }
}

/// The tail of an address array parses back to its elements.
proof fn lemma_sp_addrs_rest_at(t: Seq<u8>, i: int, a: Seq<Seq<u8>>, prev: Seq<u8>)
    requires
        all_safe(a),
        strictly_sorted(a),
        a.len() > 0 ==> lex_lt(prev, a[0]),
        starts_at(t, i, json_addrs_rest(a) + seq![93u8]),
    ensures
        sp_addrs_rest(t, i, prev) == Some((a, i + json_addrs_rest(a).len() + 1)),
    decreases a.len(),
{
    if a.len() == 0 {
        assert(json_addrs_rest(a) + seq![93u8] =~= seq![93u8]);
        lemma_starts_at_index(t, i, seq![93u8], 0);
    } else {
        let a0 = a[0];
        let rest = a.drop_first();
        let tail = json_string(a0) + (json_addrs_rest(rest) + seq![93u8]);
        assert(json_addrs_rest(a) + seq![93u8] =~= seq![44u8] + tail);
        lemma_starts_at_concat(t, i, seq![44u8], tail);
        lemma_starts_at_index(t, i, seq![44u8], 0);
        lemma_starts_at_concat(t, i + 1, json_string(a0), json_addrs_rest(rest) + seq![93u8]);
        assert(safe_text(a0));
        lemma_sp_string_at(t, i + 1, a0);
        let j = i + 1 + json_string(a0).len();
        assert forall|k: int| 0 <= k < rest.len() implies safe_text(#[trigger] rest[k]) by {
            assert(rest[k] == a[k + 1]);
        }
        assert forall|k1: int, k2: int| 0 <= k1 < k2 < rest.len() implies lex_lt(
            rest[k1],
            rest[k2],
        ) by {
            assert(rest[k1] == a[k1 + 1] && rest[k2] == a[k2 + 1]);
        }
        if rest.len() > 0 {
            assert(rest[0] == a[1]);
            assert(lex_lt(a0, rest[0]));
        }
        lemma_sp_addrs_rest_at(t, j, rest, a0);
        assert(seq![a0] + rest =~= a);
    }
}

/// The address array parses back to its elements.
proof fn lemma_sp_addrs_at(t: Seq<u8>, i: int, a: Seq<Seq<u8>>)
    requires
        all_safe(a),
        strictly_sorted(a),
        starts_at(t, i, json_addrs(a) + seq![93u8]),
    ensures
        sp_addrs(t, i) == Some((a, i + json_addrs(a).len() + 1)),
{
    if a.len() == 0 {
        assert(json_addrs(a) + seq![93u8] =~= seq![93u8]);
        lemma_starts_at_index(t, i, seq![93u8], 0);
    } else {
        let a0 = a[0];
        let rest = a.drop_first();
        assert(json_addrs(a) + seq![93u8] =~= json_string(a0) + (json_addrs_rest(rest) + seq![
            93u8,
        ]));
        lemma_starts_at_concat(t, i, json_string(a0), json_addrs_rest(rest) + seq![93u8]);
        lemma_starts_at_index(t, i, json_string(a0), 0);
        assert(json_string(a0)[0] == 34);
        assert(t[i] == 34);
        assert(safe_text(a0));
        lemma_sp_string_at(t, i, a0);
        let j = i + json_string(a0).len();
        assert forall|k: int| 0 <= k < rest.len() implies safe_text(#[trigger] rest[k]) by {
            assert(rest[k] == a[k + 1]);
        }
        assert forall|k1: int, k2: int| 0 <= k1 < k2 < rest.len() implies lex_lt(
            rest[k1],
            rest[k2],
        ) by {
            assert(rest[k1] == a[k1 + 1] && rest[k2] == a[k2 + 1]);
        }
        if rest.len() > 0 {
            assert(rest[0] == a[1]);
            assert(lex_lt(a0, rest[0]));
        }
        lemma_sp_addrs_rest_at(t, j, rest, a0);
        assert(seq![a0] + rest =~= a);
    }
}

/// A record key parses back to the raw identifier bytes.
proof fn lemma_sp_key_at(t: Seq<u8>, i: int, id: Seq<u8>)
    requires
        id.len() == 32,
        starts_at(t, i, json_string(hex_of(id))),
    ensures
        sp_key(t, i) == Some((id, i + json_string(hex_of(id)).len())),
{
    lemma_hex_round_trip(id);
    lemma_hex_safe(hex_of(id));
    lemma_sp_string_at(t, i, hex_of(id));
}

/// A record's value object parses back to its parts.
proof fn lemma_sp_data_at(t: Seq<u8>, i: int, rel: Option<Seq<u8>>, addrs: Seq<Seq<u8>>)
    requires
        match rel {
            Some(u) => safe_text(u),
            None => true,
        },
        all_safe(addrs),
        strictly_sorted(addrs),
        starts_at(t, i, json_data(rel, addrs)),
    ensures
        sp_data(t, i) == Some(((rel, addrs), i + json_data(rel, addrs).len())),
{
    let l1 = seq![123u8] + relay_key();
    let p1 = json_relay(rel) + (addrs_key() + ((json_addrs(addrs) + seq![93u8]) + seq![125u8]));
    assert(json_data(rel, addrs) =~= l1 + p1);
    lemma_starts_at_concat(t, i, l1, p1);
    let i1 = i + l1.len();
    lemma_starts_at_concat(t, i1, json_relay(rel), addrs_key() + ((json_addrs(addrs) + seq![
        93u8,
    ]) + seq![125u8]));
    lemma_sp_relay_at(t, i1, rel);
    let i2 = i1 + json_relay(rel).len();
    lemma_starts_at_concat(t, i2, addrs_key(), (json_addrs(addrs) + seq![93u8]) + seq![125u8]);
    let i3 = i2 + addrs_key().len();
    lemma_starts_at_concat(t, i3, json_addrs(addrs) + seq![93u8], seq![125u8]);
    lemma_sp_addrs_at(t, i3, addrs);
    let i4 = i3 + json_addrs(addrs).len() + 1;
    assert(starts_at(t, i4, seq![125u8]));
}

/// One record parses back to itself.
proof fn lemma_sp_record_at(t: Seq<u8>, i: int, r: SnapshotRecord)
    requires
        snapshot_record_wf(r),
        starts_at(t, i, json_record(r)),
    ensures
        sp_record(t, i) == Some((r, i + json_record(r).len())),
{
    let key = json_string(hex_of(r.id));
    let p1 = seq![58u8] + json_data(r.relay, r.addrs);
    assert(json_record(r) =~= key + p1);
    lemma_starts_at_concat(t, i, key, p1);
    lemma_sp_key_at(t, i, r.id);
    let i1 = i + key.len();
    lemma_starts_at_concat(t, i1, seq![58u8], json_data(r.relay, r.addrs));
    lemma_sp_data_at(t, i1 + 1, r.relay, r.addrs);
}

/// The tail of the record list parses back to its records.
proof fn lemma_sp_records_rest_at(t: Seq<u8>, i: int, v: Seq<SnapshotRecord>, prev: Seq<u8>)
    requires
        forall|k: int| 0 <= k < v.len() ==> snapshot_record_wf(#[trigger] v[k]),
        strictly_sorted(ids_of(v)),
        v.len() > 0 ==> lex_lt(prev, v[0].id),
        starts_at(t, i, json_records_rest(v) + seq![125u8]),
    ensures
        sp_records_rest(t, i, prev) == Some((v, i + json_records_rest(v).len() + 1)),
    decreases v.len(),
{
    if v.len() == 0 {
        assert(json_records_rest(v) + seq![125u8] =~= seq![125u8]);
        lemma_starts_at_index(t, i, seq![125u8], 0);
    } else {
        let e = v[0];
        let rest = v.drop_first();
        let tail = json_record(e) + (json_records_rest(rest) + seq![125u8]);
        assert(json_records_rest(v) + seq![125u8] =~= seq![44u8] + tail);
        lemma_starts_at_concat(t, i, seq![44u8], tail);
        lemma_starts_at_index(t, i, seq![44u8], 0);
        lemma_starts_at_concat(t, i + 1, json_record(e), json_records_rest(rest) + seq![125u8]);
        assert(snapshot_record_wf(e));
        lemma_sp_record_at(t, i + 1, e);
        let j = i + 1 + json_record(e).len();
        assert forall|k: int| 0 <= k < rest.len() implies snapshot_record_wf(
            #[trigger] rest[k],
        ) by {
            assert(rest[k] == v[k + 1]);
        }
        assert forall|k1: int, k2: int| 0 <= k1 < k2 < ids_of(rest).len() implies lex_lt(
            ids_of(rest)[k1],
            ids_of(rest)[k2],
        ) by {
            assert(ids_of(rest)[k1] == rest[k1].id && rest[k1] == v[k1 + 1]);
            assert(ids_of(rest)[k2] == rest[k2].id && rest[k2] == v[k2 + 1]);
            assert(lex_lt(ids_of(v)[k1 + 1], ids_of(v)[k2 + 1]));
            assert(ids_of(v)[k1 + 1] == v[k1 + 1].id && ids_of(v)[k2 + 1] == v[k2 + 1].id);
        }
        if rest.len() > 0 {
            assert(rest[0] == v[1]);
            assert(lex_lt(ids_of(v)[0], ids_of(v)[1]));
            assert(ids_of(v)[0] == v[0].id && ids_of(v)[1] == v[1].id);
        }
        assert(lex_lt(prev, e.id));
        lemma_sp_records_rest_at(t, j, rest, e.id);
        assert(seq![e] + rest =~= v);
    }
}

/// Persistence round trip: the canonical encoding of a well-formed
/// snapshot decodes to exactly the same records.
pub proof fn lemma_snapshot_round_trip(v: Seq<SnapshotRecord>)
    requires
        snapshot_wf(v),
    ensures
        sp_snapshot(json_snapshot(v)) == Some(v),
{
    let t = json_snapshot(v);
    assert(starts_at(t, 0, t)) by {
        assert(t.subrange(0, t.len() as int) =~= t);
    }
    assert(t =~= seq![123u8] + (json_records(v) + seq![125u8]));
    lemma_starts_at_concat(t, 0, seq![123u8], json_records(v) + seq![125u8]);
    lemma_starts_at_index(t, 0, seq![123u8], 0);
    if v.len() == 0 {
        assert(t =~= seq![123u8, 125u8]);
        assert(v =~= Seq::<SnapshotRecord>::empty());
    } else {
        let e = v[0];
        let rest = v.drop_first();
        assert(json_records(v) + seq![125u8] =~= json_record(e) + (json_records_rest(rest) + seq![
            125u8,
        ]));
        lemma_starts_at_concat(t, 1, json_record(e), json_records_rest(rest) + seq![125u8]);
        lemma_starts_at_index(t, 1, json_record(e), 0);
        assert(json_record(e)[0] == 34) by {
            assert(json_record(e)[0] == json_string(hex_of(e.id))[0]);
        }
        assert(t[1] == 34);
        assert(snapshot_record_wf(e));
        lemma_sp_record_at(t, 1, e);
        let j: int = 1 + json_record(e).len() as int;
        assert forall|k: int| 0 <= k < rest.len() implies snapshot_record_wf(
            #[trigger] rest[k],
        ) by {
            assert(rest[k] == v[k + 1]);
        }
        assert forall|k1: int, k2: int| 0 <= k1 < k2 < ids_of(rest).len() implies lex_lt(
            ids_of(rest)[k1],
            ids_of(rest)[k2],
        ) by {
            assert(ids_of(rest)[k1] == rest[k1].id && rest[k1] == v[k1 + 1]);
            assert(ids_of(rest)[k2] == rest[k2].id && rest[k2] == v[k2 + 1]);
            assert(lex_lt(ids_of(v)[k1 + 1], ids_of(v)[k2 + 1]));
            assert(ids_of(v)[k1 + 1] == v[k1 + 1].id && ids_of(v)[k2 + 1] == v[k2 + 1].id);
        }
        if rest.len() > 0 {
            assert(rest[0] == v[1]);
            assert(lex_lt(ids_of(v)[0], ids_of(v)[1]));
            assert(ids_of(v)[0] == v[0].id && ids_of(v)[1] == v[1].id);
        }
        lemma_sp_records_rest_at(t, j, rest, e.id);
        assert(seq![e] + rest =~= v);
    }
}


/// The snapshot a directory denotes: one record per held node, in stored
/// order.
pub open spec fn snapshot_of(s: Seq<(UNodeId, UNodeData)>) -> Seq<SnapshotRecord> {
    Seq::new(
        s.len(),
        |i: int|
            SnapshotRecord {
                id: s[i].0@,
                relay: s[i].1.relay_view(),
                addrs: s[i].1.addr_views(),
            },
    )
}

/// A well-formed directory denotes a well-formed snapshot.
pub proof fn lemma_snapshot_of_wf(storage: NodeStorage)
    requires
        storage.wf(),
    ensures
        snapshot_wf(snapshot_of(storage.nodes@)),
{
    let s = storage.nodes@;
    let v = snapshot_of(s);
    assert forall|i: int| 0 <= i < v.len() implies snapshot_record_wf(#[trigger] v[i]) by {
        assert(s[i].0.wf() && s[i].1.wf());
    }
    assert forall|i: int, j: int| 0 <= i < j < ids_of(v).len() implies lex_lt(
        ids_of(v)[i],
        ids_of(v)[j],
    ) by {
        assert(ids_of(v)[i] == v[i].id && ids_of(v)[j] == v[j].id);
        assert(crate::node_storage::keys_of(s)[i] == s[i].0@);
        assert(crate::node_storage::keys_of(s)[j] == s[j].0@);
    }
}

/// Persistence round trip: the canonical bytes a well-formed directory
/// saves decode back to exactly the directory's snapshot.
pub proof fn lemma_save_load_round_trip(storage: NodeStorage)
    requires
        storage.wf(),
    ensures
        sp_snapshot(json_snapshot(snapshot_of(storage.nodes@))) == Some(
            snapshot_of(storage.nodes@),
        ),
{
    lemma_snapshot_of_wf(storage);
    lemma_snapshot_round_trip(snapshot_of(storage.nodes@));
}

/// Appending one element to the tail encoding appends its comma-prefixed
/// string.
proof fn lemma_json_addrs_rest_snoc(a: Seq<Seq<u8>>, e: Seq<u8>)
    ensures
        json_addrs_rest(a.push(e)) == json_addrs_rest(a) + (seq![44u8] + json_string(e)),
    decreases a.len(),
{
    if a.len() == 0 {
        let p = a.push(e);
        assert(p[0] == e);
        assert(p.drop_first() =~= Seq::<Seq<u8>>::empty());
        assert(json_addrs_rest(p.drop_first()) =~= Seq::<u8>::empty());
        assert(json_addrs_rest(p) == seq![44u8] + json_string(e) + json_addrs_rest(p.drop_first()));
        assert(json_addrs_rest(a) =~= Seq::<u8>::empty());
        assert(json_addrs_rest(p) =~= json_addrs_rest(a) + (seq![44u8] + json_string(e)));
    } else {
        assert(a.push(e)[0] == a[0]);
        assert(a.push(e).drop_first() =~= a.drop_first().push(e));
        lemma_json_addrs_rest_snoc(a.drop_first(), e);
        assert(json_addrs_rest(a.push(e)) =~= json_addrs_rest(a) + (seq![44u8] + json_string(e)));
    }
}

/// Appending one element to the array encoding appends its string, with a
/// comma unless it is the first.
proof fn lemma_json_addrs_snoc(a: Seq<Seq<u8>>, e: Seq<u8>)
    ensures
        json_addrs(a.push(e)) == (if a.len() == 0 {
            json_string(e)
        } else {
            json_addrs(a) + (seq![44u8] + json_string(e))
        }),
{
    if a.len() == 0 {
        assert(a.push(e)[0] == e);
        assert(a.push(e).drop_first() =~= Seq::<Seq<u8>>::empty());
        assert(json_addrs(a.push(e)) =~= json_string(e));
    } else {
        assert(a.push(e)[0] == a[0]);
        assert(a.push(e).drop_first() =~= a.drop_first().push(e));
        lemma_json_addrs_rest_snoc(a.drop_first(), e);
        assert(json_addrs(a.push(e)) =~= json_addrs(a) + (seq![44u8] + json_string(e)));
    }
}

/// Appending one record to the tail encoding appends its comma-prefixed
/// record.
proof fn lemma_json_records_rest_snoc(v: Seq<SnapshotRecord>, e: SnapshotRecord)
    ensures
        json_records_rest(v.push(e)) == json_records_rest(v) + (seq![44u8] + json_record(e)),
    decreases v.len(),
{
    if v.len() == 0 {
        let p = v.push(e);
        assert(p[0] == e);
        assert(p.drop_first() =~= Seq::<SnapshotRecord>::empty());
        assert(json_records_rest(p.drop_first()) =~= Seq::<u8>::empty());
        assert(json_records_rest(p) == seq![44u8] + json_record(e) + json_records_rest(
            p.drop_first(),
        ));
        assert(json_records_rest(v) =~= Seq::<u8>::empty());
        assert(json_records_rest(p) =~= json_records_rest(v) + (seq![44u8] + json_record(e)));
    } else {
        assert(v.push(e)[0] == v[0]);
        assert(v.push(e).drop_first() =~= v.drop_first().push(e));
        lemma_json_records_rest_snoc(v.drop_first(), e);
        assert(json_records_rest(v.push(e)) =~= json_records_rest(v) + (seq![44u8] + json_record(
            e,
        )));
    }
}

/// Appending one record to the list encoding appends its record, with a
/// comma unless it is the first.
proof fn lemma_json_records_snoc(v: Seq<SnapshotRecord>, e: SnapshotRecord)
    ensures
        json_records(v.push(e)) == (if v.len() == 0 {
            json_record(e)
        } else {
            json_records(v) + (seq![44u8] + json_record(e))
        }),
{
    if v.len() == 0 {
        assert(v.push(e)[0] == e);
        assert(v.push(e).drop_first() =~= Seq::<SnapshotRecord>::empty());
        assert(json_records(v.push(e)) =~= json_record(e));
    } else {
        assert(v.push(e)[0] == v[0]);
        assert(v.push(e).drop_first() =~= v.drop_first().push(e));
        lemma_json_records_rest_snoc(v.drop_first(), e);
        assert(json_records(v.push(e)) =~= json_records(v) + (seq![44u8] + json_record(e)));
    }
}

/// Appends a byte string.
fn push_all(out: &mut Vec<u8>, s: &[u8])
    ensures
        final(out)@ == old(out)@ + s@,
{
    let mut i: usize = 0;
    while i < s.len()
        invariant
            i <= s@.len(),
            out@ == old(out)@ + s@.take(i as int),
        decreases s@.len() - i,
    {
        out.push(s[i]);
        proof {
            assert(old(out)@ + s@.take(i as int + 1) =~= (old(out)@ + s@.take(i as int)).push(
                s@[i as int],
            ));
        }
        i += 1;
    }
    proof {
        assert(s@.take(s@.len() as int) =~= s@);
    }
}

/// Appends the bytes of `"relayUrl":`.
fn push_relay_key(out: &mut Vec<u8>)
    ensures
        final(out)@ == old(out)@ + relay_key(),
{
    out.push(34);
    out.push(114);
    out.push(101);
    out.push(108);
    out.push(97);
    out.push(121);
    out.push(85);
    out.push(114);
    out.push(108);
    out.push(34);
    out.push(58);
    proof {
        assert(out@ =~= old(out)@ + relay_key());
    }
}

/// Appends the bytes of `,"directAddresses":[`.
fn push_addrs_key(out: &mut Vec<u8>)
    ensures
        final(out)@ == old(out)@ + addrs_key(),
{
    out.push(44);
    out.push(34);
    out.push(100);
    out.push(105);
    out.push(114);
    out.push(101);
    out.push(99);
    out.push(116);
    out.push(65);
    out.push(100);
    out.push(100);
    out.push(114);
    out.push(101);
    out.push(115);
    out.push(115);
    out.push(101);
    out.push(115);
    out.push(34);
    out.push(58);
    out.push(91);
    proof {
        assert(out@ =~= old(out)@ + addrs_key());
    }
}

/// Appends the bytes of `null`.
fn push_null(out: &mut Vec<u8>)
    ensures
        final(out)@ == old(out)@ + null_lit(),
{
    out.push(110);
    out.push(117);
    out.push(108);
    out.push(108);
    proof {
        assert(out@ =~= old(out)@ + null_lit());
    }
}

/// Appends safe content as a JSON string.
fn push_string(out: &mut Vec<u8>, c: &[u8])
    ensures
        final(out)@ == old(out)@ + json_string(c@),
{
    out.push(34);
    push_all(out, c);
    out.push(34);
    proof {
        assert(out@ =~= old(out)@ + json_string(c@));
    }
}

/// Appends the relay field.
fn push_relay(out: &mut Vec<u8>, r: &Option<Vec<u8>>)
    ensures
        final(out)@ == old(out)@ + json_relay(
            match r {
                Some(u) => Some(u@),
                None => None,
            },
        ),
{
    match r {
        None => push_null(out),
        Some(u) => push_string(out, u.as_slice()),
    }
}

/// Appends the elements of the address array, comma-separated.
fn push_addrs(out: &mut Vec<u8>, a: &Vec<Vec<u8>>)
    ensures
        final(out)@ == old(out)@ + json_addrs(views_of(a@)),
{
    let ghost av = views_of(a@);
    proof {
        assert(av.take(0) =~= Seq::<Seq<u8>>::empty());
        assert(out@ =~= old(out)@ + json_addrs(av.take(0)));
    }
    let mut i: usize = 0;
    while i < a.len()
        invariant
            i <= a@.len(),
            av == views_of(a@),
            out@ == old(out)@ + json_addrs(av.take(i as int)),
        decreases a@.len() - i,
    {
        if i > 0 {
            out.push(44);
        }
        push_string(out, a[i].as_slice());
        proof {
            assert(av.take(i as int + 1) =~= av.take(i as int).push(av[i as int]));
            lemma_json_addrs_snoc(av.take(i as int), av[i as int]);
            assert(out@ =~= old(out)@ + json_addrs(av.take(i as int + 1)));
        }
        i += 1;
    }
    proof {
        assert(av.take(av.len() as int) =~= av);
    }
}

/// Appends one record's value object.
fn push_data(out: &mut Vec<u8>, d: &UNodeData)
    ensures
        final(out)@ == old(out)@ + json_data(d.relay_view(), d.addr_views()),
{
    out.push(123);
    push_relay_key(out);
    push_relay(out, &d.relay_url);
    push_addrs_key(out);
    push_addrs(out, &d.direct_addresses);
    out.push(93);
    out.push(125);
    proof {
        assert(out@ =~= old(out)@ + json_data(d.relay_view(), d.addr_views()));
    }
}

/// Appends one record.
fn push_record(out: &mut Vec<u8>, id: &UNodeId, d: &UNodeData)
    requires
        id.wf(),
    ensures
        final(out)@ == old(out)@ + json_record(
            SnapshotRecord { id: id@, relay: d.relay_view(), addrs: d.addr_views() },
        ),
{
    let hex = format_hex(id.bytes.as_slice());
    push_string(out, hex.as_slice());
    out.push(58);
    push_data(out, d);
    proof {
        assert(out@ =~= old(out)@ + json_record(
            SnapshotRecord { id: id@, relay: d.relay_view(), addrs: d.addr_views() },
        ));
    }
}

impl NodeStorage {
    /// Serialises the directory to its canonical snapshot bytes, the exact
    /// form `from_json_bytes` reads back.
    pub fn to_json_bytes(&self) -> (r: Vec<u8>)
        requires
            self.wf(),
        ensures
            r@ == json_snapshot(snapshot_of(self.nodes@)),
    {
        let ghost v = snapshot_of(self.nodes@);
        let mut out: Vec<u8> = Vec::new();
        out.push(123);
        proof {
            assert(v.take(0) =~= Seq::<SnapshotRecord>::empty());
            assert(out@ =~= seq![123u8] + json_records(v.take(0)));
        }
        let mut i: usize = 0;
        while i < self.nodes.len()
            invariant
                i <= self.nodes@.len(),
                self.wf(),
                v == snapshot_of(self.nodes@),
                out@ == seq![123u8] + json_records(v.take(i as int)),
            decreases self.nodes@.len() - i,
        {
            if i > 0 {
                out.push(44);
            }
            proof {
                assert(self.nodes@[i as int].0.wf() && self.nodes@[i as int].1.wf());
            }
            push_record(&mut out, &self.nodes[i].0, &self.nodes[i].1);
            proof {
                assert(v[i as int] == (SnapshotRecord {
                    id: self.nodes@[i as int].0@,
                    relay: self.nodes@[i as int].1.relay_view(),
                    addrs: self.nodes@[i as int].1.addr_views(),
                }));
                assert(v.take(i as int + 1) =~= v.take(i as int).push(v[i as int]));
                lemma_json_records_snoc(v.take(i as int), v[i as int]);
                assert(out@ =~= seq![123u8] + json_records(v.take(i as int + 1)));
            }
            i += 1;
        }
        out.push(125);
        proof {
            assert(v.take(v.len() as int) =~= v);
            assert(out@ =~= json_snapshot(v));
        }
        out
    }
}



/// Bounds and safety of a successful scan: it moved past the content and
/// its quote, and the content is safe.
proof fn lemma_sp_scan_props(t: Seq<u8>, i: int)
    ensures
        match sp_scan(t, i) {
            Some((c, j)) => j == i + c.len() + 1 && 0 <= i && j <= t.len() && safe_text(c),
            None => true,
        },
    decreases t.len() - i,
{
    if 0 <= i < t.len() {
        if t[i] == 34 {
        } else if 32 <= t[i] <= 126 && t[i] != 92 {
            lemma_sp_scan_props(t, i + 1);
            match sp_scan(t, i + 1) {
                Some((c2, j2)) => {
                    assert forall|k: int| 0 <= k < (seq![t[i]] + c2).len() implies 32 <= (seq![
                        t[i],
                    ] + c2)[k] <= 126 && (seq![t[i]] + c2)[k] != 34 && (seq![t[i]] + c2)[k]
                        != 92 by {
                        if k > 0 {
                            assert((seq![t[i]] + c2)[k] == c2[k - 1]);
                        }
                    }
                },
                None => {},
            }
        }
    }
}

/// Bounds and safety of a successful string parse.
proof fn lemma_sp_string_props(t: Seq<u8>, i: int)
    ensures
        match sp_string(t, i) {
            Some((c, j)) => j == i + c.len() + 2 && 0 <= i < j && j <= t.len() && safe_text(c),
            None => true,
        },
{
    if 0 <= i < t.len() && t[i] == 34 {
        lemma_sp_scan_props(t, i + 1);
    }
}

/// Bounds and safety of a successful relay parse.
proof fn lemma_sp_relay_props(t: Seq<u8>, i: int)
    ensures
        match sp_relay(t, i) {
            Some((r, j)) => 0 <= i < j && j <= t.len() && (match r {
                Some(u) => safe_text(u),
                None => true,
            }),
            None => true,
        },
{
    lemma_sp_string_props(t, i);
}

/// Neighbour order along a parsed list, anchored at what came before it.
pub open spec fn chain_ok(prev: Seq<u8>, a: Seq<Seq<u8>>) -> bool {
    &&& (a.len() > 0 ==> lex_lt(prev, a[0]))
    &&& (forall|k: int| 0 <= k < a.len() - 1 ==> lex_lt(#[trigger] a[k], a[k + 1]))
}

/// Bounds, safety and order of a successful address-tail parse.
proof fn lemma_sp_addrs_rest_props(t: Seq<u8>, i: int, prev: Seq<u8>)
    ensures
        match sp_addrs_rest(t, i, prev) {
            Some((a, k)) => 0 <= i < k && k <= t.len() && all_safe(a) && chain_ok(prev, a),
            None => true,
        },
    decreases t.len() - i,
{
    if 0 <= i < t.len() && t[i] != 93 && t[i] == 44 {
        lemma_sp_string_props(t, i + 1);
        match sp_string(t, i + 1) {
            Some((c, j)) => {
                if lex_lt(prev, c) && i + 1 < j && j <= t.len() {
                    lemma_sp_addrs_rest_props(t, j, c);
                    match sp_addrs_rest(t, j, c) {
                        Some((cs, k)) => {
                            let a = seq![c] + cs;
                            assert(a[0] == c);
                            assert forall|m: int| 0 <= m < a.len() - 1 implies lex_lt(
                                #[trigger] a[m],
                                a[m + 1],
                            ) by {
                                if m == 0 {
                                    if cs.len() > 0 {
                                        assert(a[1] == cs[0]);
                                    }
                                } else {
                                    assert(a[m] == cs[m - 1] && a[m + 1] == cs[m]);
                                }
                            }
                            assert forall|m: int| 0 <= m < a.len() implies safe_text(
                                #[trigger] a[m],
                            ) by {
                                if m > 0 {
                                    assert(a[m] == cs[m - 1]);
                                }
                            }
                        },
                        None => {},
                    }
                }
            },
            None => {},
        }
    }
}

/// Bounds, safety and order of a successful address-array parse.
proof fn lemma_sp_addrs_props(t: Seq<u8>, i: int)
    ensures
        match sp_addrs(t, i) {
            Some((a, k)) => 0 <= i < k && k <= t.len() && all_safe(a) && (forall|m: int|
                0 <= m < a.len() - 1 ==> lex_lt(#[trigger] a[m], a[m + 1])),
            None => true,
        },
{
    if !(0 <= i < t.len() && t[i] == 93) {
        lemma_sp_string_props(t, i);
        match sp_string(t, i) {
            Some((c, j)) => {
                if i < j && j <= t.len() {
                    lemma_sp_addrs_rest_props(t, j, c);
                    match sp_addrs_rest(t, j, c) {
                        Some((cs, k)) => {
                            let a = seq![c] + cs;
                            assert(a[0] == c);
                            assert forall|m: int| 0 <= m < a.len() - 1 implies lex_lt(
                                #[trigger] a[m],
                                a[m + 1],
                            ) by {
                                if m == 0 {
                                    if cs.len() > 0 {
                                        assert(a[1] == cs[0]);
                                    }
                                } else {
                                    assert(a[m] == cs[m - 1] && a[m + 1] == cs[m]);
                                }
                            }
                            assert forall|m: int| 0 <= m < a.len() implies safe_text(
                                #[trigger] a[m],
                            ) by {
                                if m > 0 {
                                    assert(a[m] == cs[m - 1]);
                                }
                            }
                        },
                        None => {},
                    }
                }
            },
            None => {},
        }
    }
}

/// Bounds of a successful key parse: a full-width identifier.
proof fn lemma_sp_key_props(t: Seq<u8>, i: int)
    ensures
        match sp_key(t, i) {
            Some((kb, j)) => 0 <= i < j && j <= t.len() && kb.len() == 32,
            None => true,
        },
{
    lemma_sp_string_props(t, i);
}

/// Bounds and well-formedness of a successful value-object parse.
proof fn lemma_sp_data_props(t: Seq<u8>, i: int)
    ensures
        match sp_data(t, i) {
            Some((d, n)) => 0 <= i < n && n <= t.len() && (match d.0 {
                Some(u) => safe_text(u),
                None => true,
            }) && all_safe(d.1) && strictly_sorted(d.1),
            None => true,
        },
{
    match sp_lit(t, i, seq![123u8] + relay_key()) {
        Some(j) => {
            lemma_sp_relay_props(t, j);
            match sp_relay(t, j) {
                Some((rel, k)) => {
                    match sp_lit(t, k, addrs_key()) {
                        Some(l) => {
                            lemma_sp_addrs_props(t, l);
                            match sp_addrs(t, l) {
                                Some((addrs, m)) => {
                                    crate::order::lemma_adjacent_sorted(addrs);
                                },
                                None => {},
                            }
                        },
                        None => {},
                    }
                },
                None => {},
            }
        },
        None => {},
    }
}

/// Bounds and well-formedness of a successful record parse.
proof fn lemma_sp_record_props(t: Seq<u8>, i: int)
    ensures
        match sp_record(t, i) {
            Some((r, j)) => 0 <= i < j && j <= t.len() && snapshot_record_wf(r),
            None => true,
        },
{
    lemma_sp_key_props(t, i);
    match sp_key(t, i) {
        Some((kb, j)) => {
            match sp_lit(t, j, seq![58u8]) {
                Some(k) => {
                    lemma_sp_data_props(t, k);
                },
                None => {},
            }
        },
        None => {},
    }
}

/// Bounds, well-formedness and order of a successful record-tail parse.
proof fn lemma_sp_records_rest_props(t: Seq<u8>, i: int, prev: Seq<u8>)
    ensures
        match sp_records_rest(t, i, prev) {
            Some((v, k)) => 0 <= i < k && k <= t.len() && (forall|m: int|
                0 <= m < v.len() ==> snapshot_record_wf(#[trigger] v[m])) && chain_ok(
                prev,
                ids_of(v),
            ),
            None => true,
        },
    decreases t.len() - i,
{
    if 0 <= i < t.len() && t[i] != 125 && t[i] == 44 {
        lemma_sp_record_props(t, i + 1);
        match sp_record(t, i + 1) {
            Some((e, j)) => {
                if lex_lt(prev, e.id) && i + 1 < j && j <= t.len() {
                    lemma_sp_records_rest_props(t, j, e.id);
                    match sp_records_rest(t, j, e.id) {
                        Some((es, k)) => {
                            let v = seq![e] + es;
                            assert(v[0] == e);
                            assert(ids_of(v)[0] == e.id);
                            assert forall|m: int| 0 <= m < v.len() implies snapshot_record_wf(
                                #[trigger] v[m],
                            ) by {
                                if m > 0 {
                                    assert(v[m] == es[m - 1]);
                                }
                            }
                            assert forall|m: int| 0 <= m < ids_of(v).len() - 1 implies lex_lt(
                                #[trigger] ids_of(v)[m],
                                ids_of(v)[m + 1],
                            ) by {
                                assert(ids_of(v)[m] == v[m].id);
                                assert(ids_of(v)[m + 1] == v[m + 1].id);
                                if m == 0 {
                                    if es.len() > 0 {
                                        assert(v[1] == es[0]);
                                        assert(ids_of(es)[0] == es[0].id);
                                    }
                                } else {
                                    assert(v[m] == es[m - 1] && v[m + 1] == es[m]);
                                    assert(ids_of(es)[m - 1] == es[m - 1].id);
                                    assert(ids_of(es)[m] == es[m].id);
                                }
                            }
                        },
                        None => {},
                    }
                }
            },
            None => {},
        }
    }
}


/// The bytes of `null` as a value.
fn null_bytes() -> (r: Vec<u8>)
    ensures
        r@ == null_lit(),
{
    let mut v: Vec<u8> = Vec::new();
    push_null(&mut v);
    proof {
        assert(v@ =~= null_lit());
    }
    v
}

/// The bytes of `{"relayUrl":` as a value.
fn open_relay_bytes() -> (r: Vec<u8>)
    ensures
        r@ == seq![123u8] + relay_key(),
{
    let mut v: Vec<u8> = Vec::new();
    v.push(123);
    push_relay_key(&mut v);
    proof {
        assert(v@ =~= seq![123u8] + relay_key());
    }
    v
}

/// The bytes of `,"directAddresses":[` as a value.
fn addrs_key_bytes() -> (r: Vec<u8>)
    ensures
        r@ == addrs_key(),
{
    let mut v: Vec<u8> = Vec::new();
    push_addrs_key(&mut v);
    proof {
        assert(v@ =~= addrs_key());
    }
    v
}

/// Matches a fixed literal at `i`.
fn match_lit(t: &[u8], i: usize, lit: &[u8]) -> (r: Option<usize>)
    ensures
        match r {
            Some(j) => sp_lit(t@, i as int, lit@) == Some(j as int),
            None => sp_lit(t@, i as int, lit@) is None,
        },
{
    if i > t.len() || lit.len() > t.len() - i {
        proof {
            assert(!starts_at(t@, i as int, lit@));
        }
        return None;
    }
    let mut k: usize = 0;
    while k < lit.len()
        invariant
            k <= lit@.len(),
            i + lit@.len() <= t@.len(),
            t@.len() <= usize::MAX,
            forall|m: int| 0 <= m < k ==> t@[i + m] == lit@[m],
        decreases lit@.len() - k,
    {
        if t[i + k] != lit[k] {
            proof {
                assert(t@.subrange(i as int, i as int + lit@.len())[k as int] == t@[i as int
                    + k as int]);
            }
            return None;
        }
        k += 1;
    }
    proof {
        assert(t@.subrange(i as int, i as int + lit@.len()) =~= lit@);
    }
    Some(i + lit.len())
}

/// Scans a string's content up to its closing quote.
fn scan_text(t: &[u8], i: usize) -> (r: Option<(Vec<u8>, usize)>)
    ensures
        match r {
            Some((c, j)) => sp_scan(t@, i as int) == Some((c@, j as int)),
            None => sp_scan(t@, i as int) is None,
        },
{
    let mut acc: Vec<u8> = Vec::new();
    let mut cur: usize = i;
    proof {
        match sp_scan(t@, i as int) {
            Some((c0, j0)) => {
                assert(Seq::<u8>::empty() + c0 =~= c0);
            },
            None => {},
        }
    }
    while cur < t.len()
        invariant
            i <= cur,
            match sp_scan(t@, cur as int) {
                Some((c2, j2)) => sp_scan(t@, i as int) == Some((acc@ + c2, j2)),
                None => sp_scan(t@, i as int) is None,
            },
        decreases t@.len() - cur,
    {
        let b = t[cur];
        if b == 34 {
            proof {
                assert(acc@ + Seq::<u8>::empty() =~= acc@);
            }
            return Some((acc, cur + 1));
        } else if 32 <= b && b <= 126 && b != 92 {
            let ghost pre = acc@;
            acc.push(b);
            proof {
                match sp_scan(t@, cur as int + 1) {
                    Some((c2, j2)) => {
                        assert(pre + (seq![b] + c2) =~= pre.push(b) + c2);
                    },
                    None => {},
                }
            }
            cur += 1;
        } else {
            return None;
        }
    }
    None
}

/// Parses a quoted string.
fn parse_quoted(t: &[u8], i: usize) -> (r: Option<(Vec<u8>, usize)>)
    ensures
        match r {
            Some((c, j)) => sp_string(t@, i as int) == Some((c@, j as int)),
            None => sp_string(t@, i as int) is None,
        },
{
    if i < t.len() && t[i] == 34 {
        scan_text(t, i + 1)
    } else {
        None
    }
}

/// Parses the relay field.
fn parse_relay_field(t: &[u8], i: usize) -> (r: Option<(Option<Vec<u8>>, usize)>)
    ensures
        match r {
            Some((o, j)) => sp_relay(t@, i as int) == Some(
                (
                    match o {
                        Some(u) => Some(u@),
                        None => None::<Seq<u8>>,
                    },
                    j as int,
                ),
            ),
            None => sp_relay(t@, i as int) is None,
        },
{
    let nl = null_bytes();
    match match_lit(t, i, nl.as_slice()) {
        Some(j) => Some((None, j)),
        None => match parse_quoted(t, i) {
            Some((c, j)) => Some((Some(c), j)),
            None => None,
        },
    }
}

/// Parses the address array after its opening bracket.
fn parse_addr_array(t: &[u8], i: usize) -> (r: Option<(Vec<Vec<u8>>, usize)>)
    ensures
        match r {
            Some((a, j)) => sp_addrs(t@, i as int) == Some((views_of(a@), j as int)),
            None => sp_addrs(t@, i as int) is None,
        },
{
    if i < t.len() && t[i] == 93 {
        let empty: Vec<Vec<u8>> = Vec::new();
        proof {
            assert(views_of(empty@) =~= Seq::<Seq<u8>>::empty());
        }
        return Some((empty, i + 1));
    }
    match parse_quoted(t, i) {
        None => None,
        Some((c, j)) => {
            proof {
                lemma_sp_string_props(t@, i as int);
            }
            let mut prev = copy_bytes(c.as_slice());
            let mut acc: Vec<Vec<u8>> = Vec::new();
            acc.push(c);
            let mut cur: usize = j;
            proof {
                assert(views_of(acc@) =~= seq![prev@]);
                match sp_addrs_rest(t@, cur as int, prev@) {
                    Some((cs, k)) => {
                        assert(seq![prev@] + cs =~= views_of(acc@) + cs);
                    },
                    None => {},
                }
            }
            while cur < t.len()
                invariant
                    cur <= t@.len(),
                    match sp_addrs_rest(t@, cur as int, prev@) {
                        Some((cs, k)) => sp_addrs(t@, i as int) == Some((views_of(acc@) + cs, k)),
                        None => sp_addrs(t@, i as int) is None,
                    },
                decreases t@.len() - cur,
            {
                let b = t[cur];
                if b == 93 {
                    proof {
                        assert(views_of(acc@) + Seq::<Seq<u8>>::empty() =~= views_of(acc@));
                    }
                    return Some((acc, cur + 1));
                } else if b == 44 {
                    match parse_quoted(t, cur + 1) {
                        None => {
                            return None;
                        },
                        Some((c2, j2)) => {
                            proof {
                                lemma_sp_string_props(t@, cur as int + 1);
                            }
                            match lex_cmp(prev.as_slice(), c2.as_slice()) {
                                ByteOrd::Less => {
                                    let ghost accv = views_of(acc@);
                                    let newprev = copy_bytes(c2.as_slice());
                                    acc.push(c2);
                                    prev = newprev;
                                    proof {
                                        assert(views_of(acc@) =~= accv.push(prev@));
                                        match sp_addrs_rest(t@, j2 as int, prev@) {
                                            Some((cs2, k2)) => {
                                                assert(accv + (seq![prev@] + cs2) =~= views_of(
                                                    acc@,
                                                ) + cs2);
                                            },
                                            None => {},
                                        }
                                    }
                                    cur = j2;
                                },
                                _ => {
                                    return None;
                                },
                            }
                        },
                    }
                } else {
                    return None;
                }
            }
            None
        },
    }
}

/// Parses a record key to the raw identifier bytes.
fn parse_key_field(t: &[u8], i: usize) -> (r: Option<(Vec<u8>, usize)>)
    ensures
        match r {
            Some((kb, j)) => sp_key(t@, i as int) == Some((kb@, j as int)),
            None => sp_key(t@, i as int) is None,
        },
{
    match parse_quoted(t, i) {
        None => None,
        Some((c, j)) => {
            if c.len() != 64 {
                return None;
            }
            let mut k: usize = 0;
            while k < c.len()
                invariant
                    k <= c@.len(),
                    c@.len() == 64,
                    sp_string(t@, i as int) == Some((c@, j as int)),
                    forall|m: int| 0 <= m < k ==> crate::hexid::is_lower_hex_ascii(c@[m]),
                decreases c@.len() - k,
            {
                let b = c[k];
                if !((48 <= b && b <= 57) || (97 <= b && b <= 102)) {
                    proof {
                        assert(!crate::hexid::is_lower_hex_ascii(c@[k as int]));
                        assert(!is_lower_hex_text(c@));
                    }
                    return None;
                }
                k += 1;
            }
            proof {
                assert(is_lower_hex_text(c@));
                assert forall|m: int| 0 <= m < c@.len() implies crate::hexid::is_hex_ascii(
                    c@[m],
                ) by {
                    assert(crate::hexid::is_lower_hex_ascii(c@[m]));
                }
            }
            match crate::hexid::parse_hex(c.as_slice()) {
                Some(v) => Some((v, j)),
                None => {
                    proof {
                        assert(false);
                    }
                    None
                },
            }
        },
    }
}

/// Parses a record's value object.
fn parse_value_obj(t: &[u8], i: usize) -> (r: Option<((Option<Vec<u8>>, Vec<Vec<u8>>), usize)>)
    ensures
        match r {
            Some(((rel, addrs), n)) => sp_data(t@, i as int) == Some(
                (
                    (
                        match rel {
                            Some(u) => Some(u@),
                            None => None::<Seq<u8>>,
                        },
                        views_of(addrs@),
                    ),
                    n as int,
                ),
            ),
            None => sp_data(t@, i as int) is None,
        },
{
    let l1 = open_relay_bytes();
    match match_lit(t, i, l1.as_slice()) {
        None => None,
        Some(j) => match parse_relay_field(t, j) {
            None => None,
            Some((rel, k)) => {
                let l2 = addrs_key_bytes();
                match match_lit(t, k, l2.as_slice()) {
                    None => None,
                    Some(l) => match parse_addr_array(t, l) {
                        None => None,
                        Some((addrs, m)) => {
                            let mut close: Vec<u8> = Vec::new();
                            close.push(125);
                            proof {
                                assert(close@ =~= seq![125u8]);
                            }
                            match match_lit(t, m, close.as_slice()) {
                                None => None,
                                Some(n) => Some(((rel, addrs), n)),
                            }
                        },
                    },
                }
            },
        },
    }
}

/// Parses one record.
fn parse_record_item(t: &[u8], i: usize) -> (r: Option<
    ((Vec<u8>, Option<Vec<u8>>, Vec<Vec<u8>>), usize),
>)
    ensures
        match r {
            Some(((kb, rel, addrs), j)) => sp_record(t@, i as int) == Some(
                (
                    SnapshotRecord {
                        id: kb@,
                        relay: match rel {
                            Some(u) => Some(u@),
                            None => None::<Seq<u8>>,
                        },
                        addrs: views_of(addrs@),
                    },
                    j as int,
                ),
            ),
            None => sp_record(t@, i as int) is None,
        },
{
    match parse_key_field(t, i) {
        None => None,
        Some((kb, j)) => {
            let mut colon: Vec<u8> = Vec::new();
            colon.push(58);
            proof {
                assert(colon@ =~= seq![58u8]);
            }
            match match_lit(t, j, colon.as_slice()) {
                None => None,
                Some(k) => match parse_value_obj(t, k) {
                    None => None,
                    Some(((rel, addrs), m)) => Some(((kb, rel, addrs), m)),
                },
            }
        },
    }
}


impl NodeStorage {
    /// Decodes snapshot bytes back to a directory. Exactly the canonical
    /// encodings are accepted: anything else — other formatting, unsorted
    /// or duplicate keys, escapes — is rejected, and the caller treats it
    /// as an unreadable snapshot.
    pub fn from_json_bytes(t: &[u8]) -> (r: Option<NodeStorage>)
        ensures
            match r {
                Some(st) => st.wf() && sp_snapshot(t@) == Some(snapshot_of(st.nodes@)),
                None => sp_snapshot(t@) is None,
            },
    {
        if t.len() < 1 {
            return None;
        }
        if t[0] != 123 {
            return None;
        }
        if t.len() > 1 && t[1] == 125 {
            if t.len() == 2 {
                let st = NodeStorage::new();
                proof {
                    assert(snapshot_of(st.nodes@) =~= Seq::<SnapshotRecord>::empty());
                }
                return Some(st);
            } else {
                return None;
            }
        }
        match parse_record_item(t, 1) {
            None => None,
            Some(((kb, rel, addrs), j)) => {
                proof {
                    lemma_sp_record_props(t@, 1);
                }
                let ghost e0 = SnapshotRecord {
                    id: kb@,
                    relay: match &rel {
                        Some(u) => Some(u@),
                        None => None::<Seq<u8>>,
                    },
                    addrs: views_of(addrs@),
                };
                let mut prev = copy_bytes(kb.as_slice());
                let id0 = UNodeId { bytes: kb };
                let d0 = UNodeData { relay_url: rel, direct_addresses: addrs };
                proof {
                    assert(id0@ == e0.id);
                    assert(d0.relay_view() == e0.relay);
                    assert(d0.addr_views() == e0.addrs);
                }
                let mut nodes: Vec<(UNodeId, UNodeData)> = Vec::new();
                nodes.push((id0, d0));
                let mut cur: usize = j;
                proof {
                    assert(snapshot_of(nodes@) =~= seq![e0]);
                    match sp_records_rest(t@, cur as int, prev@) {
                        Some((vs, k)) => {
                            assert(seq![e0] + vs =~= snapshot_of(nodes@) + vs);
                        },
                        None => {},
                    }
                }
                while cur < t.len()
                    invariant
                        cur <= t@.len(),
                        nodes@.len() > 0,
                        prev@ == nodes@[nodes@.len() - 1].0@,
                        crate::node_storage::entries_wf(nodes@),
                        forall|m: int| 0 <= m < nodes@.len() - 1 ==> lex_lt(
                            (#[trigger] nodes@[m]).0@,
                            nodes@[m + 1].0@,
                        ),
                        match sp_records_rest(t@, cur as int, prev@) {
                            Some((vs, k)) => sp_snapshot(t@) == (if k == t@.len() as int {
                                Some(snapshot_of(nodes@) + vs)
                            } else {
                                None::<Seq<SnapshotRecord>>
                            }),
                            None => sp_snapshot(t@) is None,
                        },
                    decreases t@.len() - cur,
                {
                    let b = t[cur];
                    if b == 125 {
                        if cur + 1 == t.len() {
                            proof {
                                assert(snapshot_of(nodes@) + Seq::<SnapshotRecord>::empty()
                                    =~= snapshot_of(nodes@));
                                assert forall|m: int|
                                    0 <= m < crate::node_storage::keys_of(nodes@).len()
                                        - 1 implies lex_lt(
                                    #[trigger] crate::node_storage::keys_of(nodes@)[m],
                                    crate::node_storage::keys_of(nodes@)[m + 1],
                                ) by {
                                    assert(crate::node_storage::keys_of(nodes@)[m]
                                        == nodes@[m].0@);
                                    assert(crate::node_storage::keys_of(nodes@)[m + 1]
                                        == nodes@[m + 1].0@);
                                }
                                crate::order::lemma_adjacent_sorted(
                                    crate::node_storage::keys_of(nodes@),
                                );
                            }
                            return Some(NodeStorage { nodes });
                        } else {
                            return None;
                        }
                    } else if b == 44 {
                        match parse_record_item(t, cur + 1) {
                            None => {
                                return None;
                            },
                            Some(((kb2, rel2, addrs2), j2)) => {
                                proof {
                                    lemma_sp_record_props(t@, cur as int + 1);
                                }
                                let ghost e2 = SnapshotRecord {
                                    id: kb2@,
                                    relay: match &rel2 {
                                        Some(u) => Some(u@),
                                        None => None::<Seq<u8>>,
                                    },
                                    addrs: views_of(addrs2@),
                                };
                                match lex_cmp(prev.as_slice(), kb2.as_slice()) {
                                    ByteOrd::Less => {
                                        let newprev = copy_bytes(kb2.as_slice());
                                        let id2 = UNodeId { bytes: kb2 };
                                        let d2 = UNodeData {
                                            relay_url: rel2,
                                            direct_addresses: addrs2,
                                        };
                                        proof {
                                            assert(id2@ == e2.id);
                                            assert(d2.relay_view() == e2.relay);
                                            assert(d2.addr_views() == e2.addrs);
                                        }
                                        let ghost nodes_pre = nodes@;
                                        let ghost prev_pre = prev@;
                                        nodes.push((id2, d2));
                                        prev = newprev;
                                        proof {
                                            assert forall|m: int|
                                                0 <= m < nodes@.len() implies snapshot_of(
                                                nodes@,
                                            )[m] == snapshot_of(nodes_pre).push(e2)[m] by {
                                                if m < nodes_pre.len() {
                                                    assert(nodes@[m] == nodes_pre[m]);
                                                    assert(snapshot_of(nodes_pre)[m]
                                                        == snapshot_of(nodes_pre).push(e2)[m]);
                                                } else {
                                                    assert(nodes@[m] == (id2, d2));
                                                }
                                            }
                                            assert(snapshot_of(nodes@) =~= snapshot_of(
                                                nodes_pre,
                                            ).push(e2));
                                            match sp_records_rest(t@, j2 as int, e2.id) {
                                                Some((vs2, k2)) => {
                                                    assert(snapshot_of(nodes_pre) + (seq![e2]
                                                        + vs2) =~= snapshot_of(nodes@) + vs2);
                                                },
                                                None => {},
                                            }
                                            assert forall|m: int|
                                                0 <= m < nodes@.len() - 1 implies lex_lt(
                                                (#[trigger] nodes@[m]).0@,
                                                nodes@[m + 1].0@,
                                            ) by {
                                                if m < nodes_pre.len() - 1 {
                                                    assert(nodes@[m] == nodes_pre[m]);
                                                    assert(nodes@[m + 1] == nodes_pre[m + 1]);
                                                } else {
                                                    assert(nodes@[m] == nodes_pre[m]);
                                                    assert(nodes@[m + 1] == (id2, d2));
                                                    assert(nodes_pre[m].0@ == prev_pre);
                                                }
                                            }
                                        }
                                        cur = j2;
                                    },
                                    _ => {
                                        return None;
                                    },
                                }
                            },
                        }
                    } else {
                        return None;
                    }
                }
                None
            },
        }
    }
}

} // verus!
