use arrayvec::ArrayString;
use core::cmp::Ordering;
use vstd::prelude::*;

verus! {

/// What identifies the contents of a file: its length and a 256-bit digest
/// of its bytes. Values are immutable once built.
#[derive(Clone, Copy, Debug, PartialEq, Eq, Hash)]
pub struct LenHash {
    len: u64,
    hash: [u8; 32],
}

/// The mathematical content identity: a length and the digest bytes.
pub type Identity = (u64, Seq<u8>);

impl View for LenHash {
    type V = Identity;

    closed spec fn view(&self) -> Identity {
        (self.len, self.hash@)
    }
}

/// Compares two byte sequences lexicographically, starting at position `i`.
pub open spec fn lex_from(a: Seq<u8>, b: Seq<u8>, i: int) -> Ordering
    decreases a.len() - i,
{
    if i < 0 || i >= a.len() || i >= b.len() {
        Ordering::Equal
    } else if a[i] < b[i] {
        Ordering::Less
    } else if a[i] > b[i] {
        Ordering::Greater
    } else {
        lex_from(a, b, i + 1)
    }
}

/// The reporting order of content identities: larger lengths first, and
/// among equal lengths the larger digest (byte by byte) first.
/// `Less` means that `a` is reported before `b`.
pub open spec fn report_cmp(a: Identity, b: Identity) -> Ordering {
    if a.0 > b.0 {
        Ordering::Less
    } else if a.0 < b.0 {
        Ordering::Greater
    } else {
        lex_from(b.1, a.1, 0)
    }
}

/// Whether `a` is reported strictly before `b`.
pub open spec fn reported_before(a: Identity, b: Identity) -> bool {
    report_cmp(a, b) == Ordering::Less
}

proof fn lemma_lex_antisymmetric(a: Seq<u8>, b: Seq<u8>, i: int)
    ensures
        lex_from(a, b, i) == Ordering::Less <==> lex_from(b, a, i) == Ordering::Greater,
        lex_from(a, b, i) == Ordering::Equal <==> lex_from(b, a, i) == Ordering::Equal,
    decreases a.len() - i,
{
    if i < 0 || i >= a.len() || i >= b.len() {
    } else if a[i] == b[i] {
        lemma_lex_antisymmetric(a, b, i + 1);
    }
}

proof fn lemma_lex_transitive(a: Seq<u8>, b: Seq<u8>, c: Seq<u8>, i: int)
    requires
        a.len() == b.len(),
        b.len() == c.len(),
        lex_from(a, b, i) == Ordering::Less,
        lex_from(b, c, i) == Ordering::Less,
    ensures
        lex_from(a, c, i) == Ordering::Less,
    decreases a.len() - i,
{
    if a[i] == b[i] && b[i] == c[i] {
        lemma_lex_transitive(a, b, c, i + 1);
    }
}

proof fn lemma_lex_equal(a: Seq<u8>, b: Seq<u8>, i: int)
    requires
        0 <= i,
        a.len() == b.len(),
        lex_from(a, b, i) == Ordering::Equal,
    ensures
        forall|k: int| i <= k < a.len() ==> a[k] == b[k],
    decreases a.len() - i,
{
    if i < a.len() {
        lemma_lex_equal(a, b, i + 1);
    }
}

/// The reporting order is a strict total order on content identities:
/// it is antisymmetric, it calls only identical values equal, and it is
/// transitive.
pub proof fn lemma_report_order(a: LenHash, b: LenHash, c: LenHash)
    ensures
        reported_before(a@, b@) <==> report_cmp(b@, a@) == Ordering::Greater,
        report_cmp(a@, b@) == Ordering::Equal <==> a@ == b@,
        reported_before(a@, b@) && reported_before(b@, c@) ==> reported_before(a@, c@),
{
    lemma_lex_antisymmetric(b@.1, a@.1, 0);
    lemma_lex_antisymmetric(a@.1, b@.1, 0);
    if report_cmp(a@, b@) == Ordering::Equal {
        lemma_lex_equal(b@.1, a@.1, 0);
        assert(a@.1 =~= b@.1);
    }
    if a@ == b@ {
        lemma_lex_equal_self(a@.1, 0);
    }
    if reported_before(a@, b@) && reported_before(b@, c@) {
        if a@.0 == b@.0 && b@.0 == c@.0 {
            lemma_lex_transitive(c@.1, b@.1, a@.1, 0);
        }
    }
}

proof fn lemma_lex_equal_self(a: Seq<u8>, i: int)
    ensures
        lex_from(a, a, i) == Ordering::Equal,
    decreases a.len() - i,
{
    if 0 <= i < a.len() {
        lemma_lex_equal_self(a, i + 1);
    }
}

/// The lowercase hexadecimal digit for a value below 16.
pub open spec fn hex_char(n: u8) -> char {
    if n < 10 {
        (48 + n) as char
    } else {
        (87 + n) as char
    }
}

/// Two lowercase hexadecimal digits per byte, high half first.
pub open spec fn hex_of(bytes: Seq<u8>) -> Seq<char>
    decreases bytes.len(),
{
    if bytes.len() == 0 {
        Seq::empty()
    } else {
        let b = bytes.last();
        hex_of(bytes.drop_last()) + seq![hex_char(b / 16), hex_char(b % 16)]
    }
}

/// What an `ArrayString<64>` holds, as characters.
pub uninterp spec fn text_chars(s: ArrayString<64>) -> Seq<char>;

#[verifier::external_type_specification]
#[verifier::external_body]
pub struct ExArrayString<const CAP: usize>(ArrayString<CAP>);

/// Relies on arrayvec's `ArrayString::new`: the string starts empty.
#[verifier::external_body]
fn text_new() -> (r: ArrayString<64>)
    ensures
        text_chars(r) == Seq::<char>::empty(),
{
    ArrayString::new()
}

/// Relies on arrayvec's `ArrayString::push`: the character is appended.
/// It panics only when the character's UTF-8 bytes do not fit in the
/// capacity of 64 bytes; for ASCII text each character is one byte, so the
/// bounds below rule that out.
#[verifier::external_body]
fn text_push(s: &mut ArrayString<64>, c: char)
    requires
        text_chars(*old(s)).len() < 64,
        (c as u32) < 128,
        forall|k: int|
            0 <= k < text_chars(*old(s)).len() ==> (#[trigger] text_chars(*old(s))[k] as u32) < 128,
    ensures
        text_chars(*final(s)) == text_chars(*old(s)).push(c),
{
    s.push(c)
}

fn hex_digit(n: u8) -> (r: char)
    requires
        n < 16,
    ensures
        r == hex_char(n),
        (r as u32) < 128,
{
    if n < 10 {
        (48 + n) as char
    } else {
        (87 + n) as char
    }
}

impl LenHash {
    /// Builds the identity of a file of `len` bytes whose digest is `hash`.
    pub fn from(len: u64, hash: [u8; 32]) -> (r: LenHash)
        ensures
            r@ == (len, hash@),
    {
        LenHash { len, hash }
    }

    /// The length of the identified contents, in bytes.
    pub fn len(&self) -> (r: u64)
        ensures
            r == self@.0,
    {
        self.len
    }

    /// The digest as 64 lowercase hexadecimal digits, high half of each
    /// byte first.
    pub fn to_hex(&self) -> (r: ArrayString<64>)
        ensures
            text_chars(r) == hex_of(self@.1),
    {
        let mut s = text_new();
        let mut i: usize = 0;
        while i < 32
            invariant
                i <= 32,
                text_chars(s) == hex_of(self.hash@.take(i as int)),
                text_chars(s).len() == 2 * i,
                forall|k: int| 0 <= k < text_chars(s).len() ==> (#[trigger] text_chars(s)[k] as u32) < 128,
            decreases 32 - i,
        {
            let b = self.hash[i];
            let hi = hex_digit(b / 16);
            let lo = hex_digit(b % 16);
            text_push(&mut s, hi);
            text_push(&mut s, lo);
            assert(self.hash@.take(i + 1).drop_last() =~= self.hash@.take(i as int));
            i = i + 1;
        }
        assert(self.hash@.take(32) =~= self.hash@);
        s
    }

    /// Compares by the reporting order: `Less` when `self` is reported
    /// before `other` (longer contents first, then the larger digest).
    pub fn cmp(&self, other: &Self) -> (r: Ordering)
        ensures
            r == report_cmp(self@, other@),
    {
        if self.len > other.len {
            return Ordering::Less;
        } else if self.len < other.len {
            return Ordering::Greater;
        }
        let mut i: usize = 0;
        while i < 32
            invariant
                i <= 32,
                self.len == other.len,
                lex_from(other.hash@, self.hash@, 0) == lex_from(other.hash@, self.hash@, i as int),
            decreases 32 - i,
        {
            if other.hash[i] < self.hash[i] {
                return Ordering::Less;
            } else if other.hash[i] > self.hash[i] {
                return Ordering::Greater;
            }
            i = i + 1;
        }
        Ordering::Equal
    }
}

} // verus!
