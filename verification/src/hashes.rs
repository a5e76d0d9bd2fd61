//! 32-byte hashes: identity, order, digests and hex text.

use crypto::digest::Digest;
use vstd::array::*;
use vstd::prelude::*;
use vstd::utf8::*;

verus! {

/// A 256-bit hash, in the byte order in which it is computed and stored.
pub type FullHash = [u8; 32];

/// Identifies a transaction.
pub type Txid = FullHash;

/// Identifies a block.
pub type BlockHash = FullHash;

/// The first bytes of a hash.
pub type HashPrefix = [u8; 8];

/// How many bytes a digest accepts: the length in bits has to fit in 64 bits.
pub const MAX_DIGEST_INPUT: u64 = 0x1fff_ffff_ffff_ffff;

/// The hash of all zeroes: the parent of the first block, and the transaction that a
/// coinbase input spends.
pub open spec fn null_hash() -> FullHash {
    spec_array_fill_for_copy_type::<u8, 32>(0)
}

/// Whether `a` comes before `b` in byte-wise lexicographic order.
pub open spec fn lex_less(a: Seq<u8>, b: Seq<u8>) -> bool
    decreases a.len(),
{
    if b.len() == 0 {
        false
    } else if a.len() == 0 {
        true
    } else if a[0] != b[0] {
        a[0] < b[0]
    } else {
        lex_less(a.drop_first(), b.drop_first())
    }
}

/// Two hashes with the same bytes are the same hash.
pub proof fn lemma_hash_eq(a: FullHash, b: FullHash)
    requires
        a@ == b@,
    ensures
        a == b,
{
    assert forall|i: int| 0 <= i < 32 implies a[i] == b[i] by {
        assert(a@[i] == b@[i]);
    }
    assert(a =~= b);
}

/// The order of byte strings tells two different ones of one length apart.
pub proof fn lemma_lex_total(a: Seq<u8>, b: Seq<u8>)
    ensures
        a != b ==> lex_less(a, b) || lex_less(b, a),
        !lex_less(a, a),
        !(lex_less(a, b) && lex_less(b, a)),
    decreases a.len(),
{
    if a.len() > 0 {
        lemma_lex_total(a.drop_first(), a.drop_first());
    }
    if a.len() > 0 && b.len() > 0 {
        lemma_lex_total(a.drop_first(), b.drop_first());
        if a[0] == b[0] && a.drop_first() == b.drop_first() {
            assert(a =~= seq![a[0]] + a.drop_first());
            assert(b =~= seq![b[0]] + b.drop_first());
        }
    } else if a.len() == 0 && b.len() == 0 {
        assert(a =~= b);
    }
}

/// The order of byte strings is transitive.
pub proof fn lemma_lex_transitive(a: Seq<u8>, b: Seq<u8>, c: Seq<u8>)
    requires
        lex_less(a, b),
        lex_less(b, c),
    ensures
        lex_less(a, c),
    decreases a.len(),
{
    if a.len() > 0 && a[0] == b[0] && b[0] == c[0] {
        lemma_lex_transitive(a.drop_first(), b.drop_first(), c.drop_first());
    }
}

/// Of two byte strings the one with the smaller byte at the first difference comes first; where
/// one of them ends before there is a difference, the shorter one does.
pub proof fn law_lex_by_first_difference(a: Seq<u8>, b: Seq<u8>, n: int)
    requires
        0 <= n <= a.len(),
        n <= b.len(),
        forall|i: int| 0 <= i < n ==> a[i] == b[i],
    ensures
        n < a.len() && n < b.len() && a[n] < b[n] ==> lex_less(a, b) && !lex_less(b, a),
        n == a.len() ==> lex_less(a, b) == (a.len() < b.len()),
        n == b.len() ==> !lex_less(a, b),
    decreases n,
{
    if n > 0 {
        let (x, y) = (a.drop_first(), b.drop_first());
        assert forall|i: int| 0 <= i < n - 1 implies x[i] == y[i] by {
            assert(x[i] == a[i + 1] && y[i] == b[i + 1]);
        }
        assert(a[0] == b[0]);
        law_lex_by_first_difference(x, y, n - 1);
    }
}

/// Every byte of the null hash is zero, and no other hash is so.
pub proof fn law_null_hash(hash: FullHash)
    ensures
        hash == null_hash() <==> forall|i: int| 0 <= i < 32 ==> #[trigger] hash@[i] == 0,
{
    assert forall|i: int| 0 <= i < 32 implies #[trigger] null_hash()@[i] == 0 by {}
    if forall|i: int| 0 <= i < 32 ==> #[trigger] hash@[i] == 0 {
        assert(hash@ =~= null_hash()@);
        lemma_hash_eq(hash, null_hash());
    }
}

/// The hash that these bytes are.
pub open spec fn hash_in(bytes: Seq<u8>) -> FullHash {
    choose|hash: FullHash| hash@ == bytes
}

/// The bytes of a hash are that hash.
pub proof fn lemma_hash_in(hash: FullHash)
    ensures
        hash_in(hash@) == hash,
{
    lemma_hash_eq(hash_in(hash@), hash);
}

/// The hash of all zeroes.
pub fn default_hash() -> (hash: FullHash)
    ensures
        hash == null_hash(),
{
    [0u8; 32]
}

/// Whether `a` and `b` are the same hash.
pub fn same_hash(a: &FullHash, b: &FullHash) -> (same: bool)
    ensures
        same == (*a == *b),
{
    let mut i: usize = 0;
    while i < 32
        invariant
            i <= 32,
            forall|j: int| 0 <= j < i ==> a[j] == b[j],
        decreases 32 - i,
    {
        if a[i] != b[i] {
            return false;
        }
        i += 1;
    }
    proof {
        assert(a@ =~= b@);
        lemma_hash_eq(*a, *b);
    }
    true
}

/// Whether `a` comes before `b` in byte-wise lexicographic order.
pub fn bytes_less(a: &[u8], b: &[u8]) -> (less: bool)
    ensures
        less == lex_less(a@, b@),
{
    let mut i: usize = 0;
    assert(a@.skip(0) =~= a@ && b@.skip(0) =~= b@);
    while i < a.len() && i < b.len()
        invariant
            i <= a.len(),
            i <= b.len(),
            lex_less(a@, b@) == lex_less(a@.skip(i as int), b@.skip(i as int)),
        decreases a.len() - i,
    {
        if a[i] != b[i] {
            return a[i] < b[i];
        }
        assert(a@.skip(i as int).drop_first() =~= a@.skip(i + 1));
        assert(b@.skip(i as int).drop_first() =~= b@.skip(i + 1));
        i += 1;
    }
    i < b.len()
}

/// Whether the two byte strings are equal.
pub fn same_bytes(a: &[u8], b: &[u8]) -> (same: bool)
    ensures
        same == (a@ == b@),
{
    if a.len() != b.len() {
        return false;
    }
    let mut i: usize = 0;
    while i < a.len()
        invariant
            i <= a.len(),
            a.len() == b.len(),
            forall|j: int| 0 <= j < i ==> a[j] == b[j],
        decreases a.len() - i,
    {
        if a[i] != b[i] {
            return false;
        }
        i += 1;
    }
    assert(a@ =~= b@);
    true
}

/// The SHA-256 digest of `data`, as `crypto::sha2::Sha256` computes it.
pub uninterp spec fn sha256(data: Seq<u8>) -> FullHash;

/// `crypto::sha2::Sha256`: one `input` of `data`, then `result`. The digest is a function of
/// the bytes alone. The crate panics where the length in bits does not fit in 64 bits.
#[verifier::external_body]
pub(crate) fn sha256_digest(data: &[u8]) -> (hash: FullHash)
    requires
        data@.len() <= MAX_DIGEST_INPUT,
    ensures
        hash == sha256(data@),
{
    let mut hash = [0u8; 32];
    let mut sha2 = crypto::sha2::Sha256::new();
    sha2.input(data);
    sha2.result(&mut hash);
    hash
}

/// The double SHA-256 digest of `data`, as `bitcoin_hashes::sha256d` computes it.
pub uninterp spec fn sha256d(data: Seq<u8>) -> FullHash;

/// `bitcoin_hashes::sha256d::Hash::hash`. The digest is a function of the bytes alone. The
/// crate computes the length in bits in 64 bits.
#[verifier::external_body]
pub(crate) fn sha256d_digest(data: &[u8]) -> (hash: FullHash)
    requires
        data@.len() <= MAX_DIGEST_INPUT,
    ensures
        hash == sha256d(data@),
{
    bitcoin_hashes::Hash::into_inner(
        <bitcoin_hashes::sha256d::Hash as bitcoin_hashes::Hash>::hash(data),
    )
}

/// The lower-case hexadecimal digit for `n`.
pub open spec fn hex_digit(n: int) -> char {
    if n < 10 {
        (n + '0' as int) as char
    } else {
        (n - 10 + 'a' as int) as char
    }
}

/// `bytes` in lower-case hexadecimal, two digits for each byte, the high one first.
pub open spec fn hex_text(bytes: Seq<u8>) -> Seq<char> {
    Seq::new(
        2 * bytes.len(),
        |i: int|
            if i % 2 == 0 {
                hex_digit(bytes[i / 2] as int / 16)
            } else {
                hex_digit(bytes[i / 2] as int % 16)
            },
    )
}

/// The value of the hexadecimal digit `c`, in either case; none for another byte.
pub open spec fn hex_value(c: u8) -> Option<int> {
    if '0' as u8 <= c <= '9' as u8 {
        Some(c - '0' as u8)
    } else if 'a' as u8 <= c <= 'f' as u8 {
        Some(c - 'a' as u8 + 10)
    } else if 'A' as u8 <= c <= 'F' as u8 {
        Some(c - 'A' as u8 + 10)
    } else {
        None
    }
}

/// The bytes that the hexadecimal text `text` (as ASCII bytes) stands for: none unless its
/// length is even and every byte is a hexadecimal digit.
pub open spec fn unhex(text: Seq<u8>) -> Option<Seq<u8>> {
    if text.len() % 2 == 0 && forall|i: int|
        0 <= i < text.len() ==> hex_value(#[trigger] text[i]) is Some {
        Some(
            Seq::new(
                text.len() / 2,
                |i: int|
                    (16 * hex_value(text[2 * i]).unwrap() + hex_value(
                        text[2 * i + 1],
                    ).unwrap()) as u8,
            ),
        )
    } else {
        None
    }
}

proof fn lemma_hex_digit(n: int)
    requires
        0 <= n < 16,
    ensures
        (hex_digit(n) as u32) < 128,
        hex_value(hex_digit(n) as u8) == Some(n),
{
    if n < 10 {
        assert(hex_digit(n) as u32 == n + 48);
    } else {
        assert(hex_digit(n) as u32 == n - 10 + 97);
    }
}

/// Bytes read back from their hexadecimal text as they are.
pub proof fn law_hex_read_back(bytes: Seq<u8>)
    ensures
        unhex(encode_utf8(hex_text(bytes))) == Some(bytes),
        encode_utf8(hex_text(bytes)).len() == 2 * bytes.len(),
{
    let text = hex_text(bytes);
    assert forall|i: int| 0 <= i < text.len() implies (#[trigger] text[i]) as u32 <= 127
        && hex_value(text[i] as u8) == Some(
        if i % 2 == 0 {
            bytes[i / 2] as int / 16
        } else {
            bytes[i / 2] as int % 16
        },
    ) by {
        lemma_hex_digit(bytes[i / 2] as int / 16);
        lemma_hex_digit(bytes[i / 2] as int % 16);
    }
    assert(is_ascii_chars(text));
    is_ascii_chars_encode_utf8(text);
    let encoded = encode_utf8(text);
    assert forall|i: int| 0 <= i < encoded.len() implies hex_value(#[trigger] encoded[i]) is Some by {
        assert(encoded[i] == text[i] as u8);
    }
    let read = unhex(encoded).unwrap();
    assert forall|i: int| 0 <= i < bytes.len() implies read[i] == bytes[i] by {
        assert(encoded[2 * i] == text[2 * i] as u8);
        assert(encoded[2 * i + 1] == text[2 * i + 1] as u8);
        assert((2 * i) / 2 == i && (2 * i + 1) / 2 == i);
        assert((2 * i) % 2 == 0 && (2 * i + 1) % 2 == 1);
    }
    assert(read =~= bytes);
}

/// The text by which a transaction or block hash is shown: its bytes backwards, in
/// hexadecimal.
pub open spec fn hash_text(hash: FullHash) -> Seq<char> {
    hex_text(hash@.reverse())
}

/// The hash that `text` shows: none unless it is 64 hexadecimal digits.
pub open spec fn hash_of_text(text: Seq<u8>) -> Option<Seq<u8>> {
    if text.len() == 64 && unhex(text) is Some {
        Some(unhex(text).unwrap().reverse())
    } else {
        None
    }
}

/// A hash reads back from the text by which it is shown.
pub proof fn law_hash_text_read_back(hash: FullHash)
    ensures
        hash_of_text(encode_utf8(hash_text(hash))) == Some(hash@),
{
    law_hex_read_back(hash@.reverse());
    assert(hash@.reverse().reverse() =~= hash@);
}

/// `bitcoin_hashes::hex::ToHex::to_hex` on a hash whose text runs backwards: 64 lower-case
/// digits.
#[verifier::external_body]
pub(crate) fn hash_to_hex(hash: &FullHash) -> (text: String)
    ensures
        text@ == hash_text(*hash),
{
    let hash: bitcoin::hash_types::Txid = bitcoin_hashes::Hash::from_inner(*hash);
    bitcoin_hashes::hex::ToHex::to_hex(&hash)
}

/// What the error of `bitcoin_hashes::hex::FromHex::from_hex` says of a text that is no hash.
pub uninterp spec fn hash_text_error(text: Seq<char>) -> Seq<char>;

/// `bitcoin_hashes::hex::FromHex::from_hex` on a hash whose text runs backwards, with the text
/// of its error: it accepts 64 hexadecimal digits of either case and nothing else. What the
/// error says is a function of the text alone.
#[verifier::external_body]
pub(crate) fn hash_from_hex(text: &str) -> (hash: Result<FullHash, String>)
    ensures
        match hash {
            Ok(hash) => hash_of_text(encode_utf8(text@)) == Some(hash@),
            Err(error) => hash_of_text(encode_utf8(text@)) is None && error@ == hash_text_error(
                text@,
            ),
        },
{
    let hash: Result<bitcoin::hash_types::Txid, bitcoin_hashes::hex::Error> =
        bitcoin_hashes::hex::FromHex::from_hex(text);
    hash.map(bitcoin_hashes::Hash::into_inner).map_err(|error| error.to_string())
}

/// What the error of `hex::decode` says of a text that is not hexadecimal.
pub uninterp spec fn hex_error(text: Seq<char>) -> Seq<char>;

/// `hex::decode`, with the text of its error: it accepts an even number of hexadecimal digits
/// of either case and nothing else. What the error says is a function of the text alone.
#[verifier::external_body]
pub(crate) fn hex_decode(text: &str) -> (bytes: Result<Vec<u8>, String>)
    ensures
        match bytes {
            Ok(bytes) => unhex(encode_utf8(text@)) == Some(bytes@),
            Err(error) => unhex(encode_utf8(text@)) is None && error@ == hex_error(text@),
        },
{
    hex::decode(text).map_err(|error| error.to_string())
}

/// `hex::encode`: two lower-case digits for each byte.
#[verifier::external_body]
pub(crate) fn hex_encode(bytes: &[u8]) -> (text: String)
    ensures
        text@ == hex_text(bytes@),
{
    hex::encode(bytes)
}

} // verus!
