//! Identifiers that cross the process boundary: node, namespace and author
//! identities and content hashes. Each is an opaque fixed-size byte string
//! whose canonical textual form is lower-case hex; parsing accepts either
//! case and round-trips exactly with formatting.
use vstd::prelude::*;

use crate::errors::SharedError;

verus! {

/// Width in bytes of every identifier this core handles.
pub const ID_LEN: usize = 32;

/// ASCII code of the hex digit for a value below sixteen, lower case.
pub open spec fn hex_digit(n: u8) -> u8
    recommends
        n < 16,
{
    if n < 10 {
        (48 + n) as u8
    } else {
        (87 + n) as u8
    }
}

/// True of the ASCII code of a hex digit, either case.
pub open spec fn is_hex_ascii(b: u8) -> bool {
    (48 <= b && b <= 57) || (65 <= b && b <= 70) || (97 <= b && b <= 102)
}

/// True of the ASCII code of a lower-case hex digit.
pub open spec fn is_lower_hex_ascii(b: u8) -> bool {
    (48 <= b && b <= 57) || (97 <= b && b <= 102)
}

/// Numeric value of one hex digit, either case.
pub open spec fn hex_value(b: u8) -> u8
    recommends
        is_hex_ascii(b),
{
    if b <= 57 {
        (b - 48) as u8
    } else if b <= 70 {
        (b - 55) as u8
    } else {
        (b - 87) as u8
    }
}

/// Canonical textual form of a byte string: two lower-case hex digits per
/// byte, high nibble first.
pub open spec fn hex_of(bytes: Seq<u8>) -> Seq<u8> {
    Seq::new(
        bytes.len() * 2,
        |i: int|
            if i % 2 == 0 {
                hex_digit((bytes[i / 2] / 16) as u8)
            } else {
                hex_digit((bytes[i / 2] % 16) as u8)
            },
    )
}

/// True when every byte of `t` is a hex digit.
pub open spec fn is_hex_text(t: Seq<u8>) -> bool {
    forall|i: int| 0 <= i < t.len() ==> is_hex_ascii(t[i])
}

/// True when every byte of `t` is a lower-case hex digit.
pub open spec fn is_lower_hex_text(t: Seq<u8>) -> bool {
    forall|i: int| 0 <= i < t.len() ==> is_lower_hex_ascii(t[i])
}

/// The byte string a hex text denotes, two digits per byte.
pub open spec fn unhex(t: Seq<u8>) -> Seq<u8>
    recommends
        t.len() % 2 == 0,
{
    Seq::new(t.len() / 2, |i: int| (hex_value(t[2 * i]) * 16 + hex_value(t[2 * i + 1])) as u8)
}

/// Formatting then reading back yields the original bytes: `hex_of` is a
/// right inverse of `unhex`, and its output is valid lower-case hex text.
pub proof fn lemma_hex_round_trip(bytes: Seq<u8>)
    ensures
        hex_of(bytes).len() == bytes.len() * 2,
        is_lower_hex_text(hex_of(bytes)),
        is_hex_text(hex_of(bytes)),
        unhex(hex_of(bytes)) == bytes,
{
    let t = hex_of(bytes);
    assert forall|i: int| 0 <= i < t.len() implies is_lower_hex_ascii(t[i]) && is_hex_ascii(
        t[i],
    ) by {
        let b = bytes[i / 2];
        assert(b / 16 < 16 && b % 16 < 16);
    }
    assert forall|i: int| 0 <= i < bytes.len() implies unhex(t)[i] == bytes[i] by {
        let b = bytes[i];
        assert(t[2 * i] == hex_digit((b / 16) as u8));
        assert(t[2 * i + 1] == hex_digit((b % 16) as u8));
        assert(hex_value(hex_digit((b / 16) as u8)) == b / 16);
        assert(hex_value(hex_digit((b % 16) as u8)) == b % 16);
    }
    assert(unhex(t) =~= bytes);
}

/// Reading lower-case hex text and formatting the result reproduces the
/// text exactly: on canonical text, `unhex` is also a left inverse.
pub proof fn lemma_unhex_round_trip(t: Seq<u8>)
    requires
        t.len() % 2 == 0,
        is_lower_hex_text(t),
    ensures
        hex_of(unhex(t)) == t,
{
    let bytes = unhex(t);
    assert forall|i: int| 0 <= i < t.len() implies hex_of(bytes)[i] == t[i] by {
        let j = i / 2;
        assert(t.len() == bytes.len() * 2);
        assert(is_lower_hex_ascii(t[2 * j]) && is_lower_hex_ascii(t[2 * j + 1]));
        assert(bytes[j] == hex_value(t[2 * j]) * 16 + hex_value(t[2 * j + 1]));
        assert(hex_value(t[2 * j]) < 16 && hex_value(t[2 * j + 1]) < 16);
        assert(bytes[j] / 16 == hex_value(t[2 * j]) && bytes[j] % 16 == hex_value(t[2 * j + 1]));
        assert(hex_digit(hex_value(t[2 * j])) == t[2 * j]);
        assert(hex_digit(hex_value(t[2 * j + 1])) == t[2 * j + 1]);
        if i % 2 == 0 {
            assert(i == 2 * j);
        } else {
            assert(i == 2 * j + 1);
        }
    }
    assert(hex_of(bytes) =~= t);
}

/// True executable equality of two byte strings.
pub fn bytes_eq(a: &[u8], b: &[u8]) -> (r: bool)
    ensures
        r == (a@ == b@),
{
    if a.len() != b.len() {
        assert(a@ != b@);
        return false;
    }
    let mut i: usize = 0;
    while i < a.len()
        invariant
            i <= a@.len(),
            a@.len() == b@.len(),
            forall|j: int| 0 <= j < i ==> a@[j] == b@[j],
        decreases a@.len() - i,
    {
        if a[i] != b[i] {
            return false;
        }
        i += 1;
    }
    assert(a@ =~= b@);
    true
}

/// A fresh copy of a byte string, equal to the original.
pub fn copy_bytes(a: &[u8]) -> (r: Vec<u8>)
    ensures
        r@ == a@,
{
    let mut out: Vec<u8> = Vec::new();
    let mut i: usize = 0;
    while i < a.len()
        invariant
            i <= a@.len(),
            out@.len() == i,
            forall|j: int| 0 <= j < i ==> out@[j] == a@[j],
        decreases a@.len() - i,
    {
        out.push(a[i]);
        i += 1;
    }
    assert(out@ =~= a@);
    out
}

fn hex_digit_exec(n: u8) -> (r: u8)
    requires
        n < 16,
    ensures
        r == hex_digit(n),
{
    if n < 10 {
        48 + n
    } else {
        87 + n
    }
}

fn is_hex_ascii_exec(b: u8) -> (r: bool)
    ensures
        r == is_hex_ascii(b),
{
    (48 <= b && b <= 57) || (65 <= b && b <= 70) || (97 <= b && b <= 102)
}

fn hex_value_exec(b: u8) -> (r: u8)
    requires
        is_hex_ascii(b),
    ensures
        r == hex_value(b),
        r < 16,
{
    if b <= 57 {
        b - 48
    } else if b <= 70 {
        b - 55
    } else {
        b - 87
    }
}

/// The canonical hex text of a byte string.
pub fn format_hex(bytes: &[u8]) -> (r: Vec<u8>)
    requires
        bytes@.len() * 2 <= usize::MAX,
    ensures
        r@ == hex_of(bytes@),
{
    let mut out: Vec<u8> = Vec::new();
    let mut i: usize = 0;
    while i < bytes.len()
        invariant
            i <= bytes@.len(),
            bytes@.len() * 2 <= usize::MAX,
            out@.len() == 2 * i,
            forall|j: int| 0 <= j < out@.len() ==> out@[j] == hex_of(bytes@)[j],
        decreases bytes@.len() - i,
    {
        let b = bytes[i];
        out.push(hex_digit_exec(b / 16));
        out.push(hex_digit_exec(b % 16));
        assert(out@[2 * i as int] == hex_of(bytes@)[2 * i as int]);
        assert(out@[2 * i as int + 1] == hex_of(bytes@)[2 * i as int + 1]);
        i += 1;
    }
    assert(out@ =~= hex_of(bytes@));
    out
}

/// The byte string denoted by hex text of even length, or `None` when the
/// text is not hex of even length.
pub fn parse_hex(text: &[u8]) -> (r: Option<Vec<u8>>)
    ensures
        match r {
            Some(v) => text@.len() % 2 == 0 && is_hex_text(text@) && v@ == unhex(text@),
            None => !(text@.len() % 2 == 0 && is_hex_text(text@)),
        },
{
    if text.len() % 2 != 0 {
        return None;
    }
    let mut out: Vec<u8> = Vec::new();
    let mut i: usize = 0;
    while i < text.len()
        invariant
            i <= text@.len(),
            i % 2 == 0,
            text@.len() % 2 == 0,
            out@.len() == i / 2,
            forall|j: int| 0 <= j < i ==> is_hex_ascii(text@[j]),
            forall|j: int| 0 <= j < out@.len() ==> out@[j] == unhex(text@)[j],
        decreases text@.len() - i,
    {
        let hi = text[i];
        let lo = text[i + 1];
        if !is_hex_ascii_exec(hi) {
            return None;
        }
        if !is_hex_ascii_exec(lo) {
            return None;
        }
        out.push(hex_value_exec(hi) * 16 + hex_value_exec(lo));
        assert(out@[i as int / 2] == unhex(text@)[i as int / 2]);
        i += 2;
    }
    assert(out@ =~= unhex(text@));
    Some(out)
}

/// Contract shared by the identifier parsers: `Ok` exactly on hex text of
/// the canonical length, carrying the denoted bytes; `InvalidIdentifier`
/// with the offending text otherwise.
pub open spec fn parse_id_post(r: Result<Seq<u8>, SharedError>, text: Seq<u8>) -> bool {
    match r {
        Ok(v) => text.len() == 64 && is_hex_text(text) && v == unhex(text),
        Err(e) => !(text.len() == 64 && is_hex_text(text))
            && crate::errors::is_invalid_identifier(e, text),
    }
}

fn parse_id_bytes(text: &[u8]) -> (r: Result<Vec<u8>, SharedError>)
    ensures
        parse_id_post(
            match r {
                Ok(v) => Ok(v@),
                Err(e) => Err(e),
            },
            text@,
        ),
        r matches Ok(v) ==> v@.len() == 32,
{
    if text.len() != 64 {
        return Err(SharedError::InvalidIdentifier(copy_bytes(text)));
    }
    match parse_hex(text) {
        Some(v) => Ok(v),
        None => Err(SharedError::InvalidIdentifier(copy_bytes(text))),
    }
}

/// Public identity of a node, stable across restarts; equality is by the
/// raw bytes.
#[derive(Debug)]
pub struct UNodeId {
    pub bytes: Vec<u8>,
}

/// Identity of a replicated document namespace.
#[derive(Debug)]
pub struct UNamespaceId {
    pub bytes: Vec<u8>,
}

/// Identity of a writing author within the document store.
#[derive(Debug)]
pub struct UAuthorId {
    pub bytes: Vec<u8>,
}

/// Content address of a stored blob.
#[derive(Debug)]
pub struct UHash {
    pub bytes: Vec<u8>,
}

impl View for UNodeId {
    type V = Seq<u8>;

    open spec fn view(&self) -> Seq<u8> {
        self.bytes@
    }
}

impl View for UNamespaceId {
    type V = Seq<u8>;

    open spec fn view(&self) -> Seq<u8> {
        self.bytes@
    }
}

impl View for UAuthorId {
    type V = Seq<u8>;

    open spec fn view(&self) -> Seq<u8> {
        self.bytes@
    }
}

impl View for UHash {
    type V = Seq<u8>;

    open spec fn view(&self) -> Seq<u8> {
        self.bytes@
    }
}

impl UNodeId {
    /// Well-formed: exactly `ID_LEN` raw bytes.
    pub open spec fn wf(&self) -> bool {
        self@.len() == ID_LEN
    }

    /// The identifier denoted by 64 hex digits of either case.
    pub fn parse(text: &[u8]) -> (r: Result<Self, SharedError>)
        ensures
            parse_id_post(
                match r {
                    Ok(id) => Ok(id@),
                    Err(e) => Err(e),
                },
                text@,
            ),
            r matches Ok(id) ==> id.wf(),
    {
        Ok(UNodeId { bytes: parse_id_bytes(text)? })
    }

    /// The canonical lower-case hex text of this identifier.
    pub fn format(&self) -> (r: Vec<u8>)
        requires
            self.wf(),
        ensures
            r@ == hex_of(self@),
    {
        format_hex(self.bytes.as_slice())
    }

    /// Wraps exactly `ID_LEN` raw bytes; rejects any other length.
    pub fn from_bytes(bytes: Vec<u8>) -> (r: Result<Self, SharedError>)
        ensures
            match r {
                Ok(id) => bytes@.len() == ID_LEN && id@ == bytes@ && id.wf(),
                Err(e) => bytes@.len() != ID_LEN
                    && crate::errors::is_invalid_identifier(e, bytes@),
            },
    {
        if bytes.len() == ID_LEN {
            Ok(UNodeId { bytes })
        } else {
            Err(SharedError::InvalidIdentifier(bytes))
        }
    }

    /// A fresh identifier equal to this one.
    pub fn dup(&self) -> (r: Self)
        ensures
            r@ == self@,
    {
        UNodeId { bytes: copy_bytes(self.bytes.as_slice()) }
    }
}

impl UNamespaceId {
    /// Well-formed: exactly `ID_LEN` raw bytes.
    pub open spec fn wf(&self) -> bool {
        self@.len() == ID_LEN
    }

    /// The identifier denoted by 64 hex digits of either case.
    pub fn parse(text: &[u8]) -> (r: Result<Self, SharedError>)
        ensures
            parse_id_post(
                match r {
                    Ok(id) => Ok(id@),
                    Err(e) => Err(e),
                },
                text@,
            ),
            r matches Ok(id) ==> id.wf(),
    {
        Ok(UNamespaceId { bytes: parse_id_bytes(text)? })
    }

    /// The canonical lower-case hex text of this identifier.
    pub fn format(&self) -> (r: Vec<u8>)
        requires
            self.wf(),
        ensures
            r@ == hex_of(self@),
    {
        format_hex(self.bytes.as_slice())
    }

    /// Wraps exactly `ID_LEN` raw bytes; rejects any other length.
    pub fn from_bytes(bytes: Vec<u8>) -> (r: Result<Self, SharedError>)
        ensures
            match r {
                Ok(id) => bytes@.len() == ID_LEN && id@ == bytes@ && id.wf(),
                Err(e) => bytes@.len() != ID_LEN
                    && crate::errors::is_invalid_identifier(e, bytes@),
            },
    {
        if bytes.len() == ID_LEN {
            Ok(UNamespaceId { bytes })
        } else {
            Err(SharedError::InvalidIdentifier(bytes))
        }
    }

    /// A fresh identifier equal to this one.
    pub fn dup(&self) -> (r: Self)
        ensures
            r@ == self@,
    {
        UNamespaceId { bytes: copy_bytes(self.bytes.as_slice()) }
    }
}

impl UAuthorId {
    /// Well-formed: exactly `ID_LEN` raw bytes.
    pub open spec fn wf(&self) -> bool {
        self@.len() == ID_LEN
    }

    /// The identifier denoted by 64 hex digits of either case.
    pub fn parse(text: &[u8]) -> (r: Result<Self, SharedError>)
        ensures
            parse_id_post(
                match r {
                    Ok(id) => Ok(id@),
                    Err(e) => Err(e),
                },
                text@,
            ),
            r matches Ok(id) ==> id.wf(),
    {
        Ok(UAuthorId { bytes: parse_id_bytes(text)? })
    }

    /// The canonical lower-case hex text of this identifier.
    pub fn format(&self) -> (r: Vec<u8>)
        requires
            self.wf(),
        ensures
            r@ == hex_of(self@),
    {
        format_hex(self.bytes.as_slice())
    }

    /// Wraps exactly `ID_LEN` raw bytes; rejects any other length.
    pub fn from_bytes(bytes: Vec<u8>) -> (r: Result<Self, SharedError>)
        ensures
            match r {
                Ok(id) => bytes@.len() == ID_LEN && id@ == bytes@ && id.wf(),
                Err(e) => bytes@.len() != ID_LEN
                    && crate::errors::is_invalid_identifier(e, bytes@),
            },
    {
        if bytes.len() == ID_LEN {
            Ok(UAuthorId { bytes })
        } else {
            Err(SharedError::InvalidIdentifier(bytes))
        }
    }

    /// A fresh identifier equal to this one.
    pub fn dup(&self) -> (r: Self)
        ensures
            r@ == self@,
    {
        UAuthorId { bytes: copy_bytes(self.bytes.as_slice()) }
    }
}

impl UHash {
    /// Well-formed: exactly `ID_LEN` raw bytes.
    pub open spec fn wf(&self) -> bool {
        self@.len() == ID_LEN
    }

    /// The hash denoted by 64 hex digits of either case.
    pub fn parse(text: &[u8]) -> (r: Result<Self, SharedError>)
        ensures
            parse_id_post(
                match r {
                    Ok(id) => Ok(id@),
                    Err(e) => Err(e),
                },
                text@,
            ),
            r matches Ok(id) ==> id.wf(),
    {
        Ok(UHash { bytes: parse_id_bytes(text)? })
    }

    /// The canonical lower-case hex text of this hash.
    pub fn format(&self) -> (r: Vec<u8>)
        requires
            self.wf(),
        ensures
            r@ == hex_of(self@),
    {
        format_hex(self.bytes.as_slice())
    }

    /// Wraps exactly `ID_LEN` raw bytes; rejects any other length.
    pub fn from_bytes(bytes: Vec<u8>) -> (r: Result<Self, SharedError>)
        ensures
            match r {
                Ok(id) => bytes@.len() == ID_LEN && id@ == bytes@ && id.wf(),
                Err(e) => bytes@.len() != ID_LEN
                    && crate::errors::is_invalid_identifier(e, bytes@),
            },
    {
        if bytes.len() == ID_LEN {
            Ok(UHash { bytes })
        } else {
            Err(SharedError::InvalidIdentifier(bytes))
        }
    }

    /// A fresh hash equal to this one.
    pub fn dup(&self) -> (r: Self)
        ensures
            r@ == self@,
    {
        UHash { bytes: copy_bytes(self.bytes.as_slice()) }
    }
}

impl PartialEq for UNodeId {
    fn eq(&self, other: &UNodeId) -> bool {
        bytes_eq(self.bytes.as_slice(), other.bytes.as_slice())
    }
}

impl vstd::std_specs::cmp::PartialEqSpecImpl for UNodeId {
    open spec fn obeys_eq_spec() -> bool {
        true
    }

    open spec fn eq_spec(&self, other: &UNodeId) -> bool {
        self@ == other@
    }
}

impl PartialEq for UNamespaceId {
    fn eq(&self, other: &UNamespaceId) -> bool {
        bytes_eq(self.bytes.as_slice(), other.bytes.as_slice())
    }
}

impl vstd::std_specs::cmp::PartialEqSpecImpl for UNamespaceId {
    open spec fn obeys_eq_spec() -> bool {
        true
    }

    open spec fn eq_spec(&self, other: &UNamespaceId) -> bool {
        self@ == other@
    }
}

impl PartialEq for UAuthorId {
    fn eq(&self, other: &UAuthorId) -> bool {
        bytes_eq(self.bytes.as_slice(), other.bytes.as_slice())
    }
}

impl vstd::std_specs::cmp::PartialEqSpecImpl for UAuthorId {
    open spec fn obeys_eq_spec() -> bool {
        true
    }

    open spec fn eq_spec(&self, other: &UAuthorId) -> bool {
        self@ == other@
    }
}

impl PartialEq for UHash {
    fn eq(&self, other: &UHash) -> bool {
        bytes_eq(self.bytes.as_slice(), other.bytes.as_slice())
    }
}

impl vstd::std_specs::cmp::PartialEqSpecImpl for UHash {
    open spec fn obeys_eq_spec() -> bool {
        true
    }

    open spec fn eq_spec(&self, other: &UHash) -> bool {
        self@ == other@
    }
}

} // verus!
