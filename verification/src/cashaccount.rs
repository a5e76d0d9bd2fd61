//! Hashes of cash account names.

use crate::hashes::{sha256, sha256_digest, FullHash, HashPrefix};
use crate::text::{decimal, lemma_ascii_len, lemma_decimal, number_text};
use vstd::prelude::*;
use vstd::slice::slice_to_vec;
use vstd::utf8::*;

verus! {

/// What is hashed for an account: its name, a `#`, and the height in decimal.
pub open spec fn account_bytes(name: Seq<u8>, height: u32) -> Seq<u8> {
    name + encode_utf8("#"@ + decimal(height as int))
}

/// The longest name that can be hashed together with its height.
pub const MAX_ACCOUNT_NAME: u64 = 0x1fff_ffff_ffff_ffe0;

/// The hash under which an account that was registered at `blockheight` is indexed.
pub fn compute_accountname_hash(accountname: &[u8], blockheight: u32) -> (hash: FullHash)
    requires
        accountname@.len() <= MAX_ACCOUNT_NAME,
    ensures
        hash == sha256(account_bytes(accountname@, blockheight)),
{
    let suffix = String::from_str("#").concat(number_text(blockheight as i64).as_str());
    let mut bytes = slice_to_vec(accountname);
    bytes.extend_from_slice(suffix.as_str().as_bytes());
    proof {
        reveal_strlit("#");
        lemma_decimal(blockheight as i64);
        lemma_ascii_len(suffix@);
        assert(bytes@ =~= account_bytes(accountname@, blockheight));
    }
    sha256_digest(bytes.as_slice())
}

/// The first eight bytes of a hash.
pub fn hash_prefix(hash: &FullHash) -> (prefix: HashPrefix)
    ensures
        prefix@ == hash@.take(8),
{
    let prefix = [
        hash[0],
        hash[1],
        hash[2],
        hash[3],
        hash[4],
        hash[5],
        hash[6],
        hash[7],
    ];
    assert(prefix@ =~= hash@.take(8));
    prefix
}

/// The letter in lower case; any other byte as it is.
pub open spec fn lower(byte: u8) -> u8 {
    if 'A' as u8 <= byte <= 'Z' as u8 {
        (byte + 32) as u8
    } else {
        byte
    }
}

/// Each ASCII letter in lower case, all other bytes as they are.
pub open spec fn ascii_lowercase(bytes: Seq<u8>) -> Seq<u8> {
    bytes.map_values(|byte: u8| lower(byte))
}

/// Each ASCII letter in lower case, all other bytes as they are.
pub fn to_ascii_lowercase(bytes: &[u8]) -> (lowered: Vec<u8>)
    ensures
        lowered@ == ascii_lowercase(bytes@),
{
    let mut lowered: Vec<u8> = Vec::new();
    for i in 0..bytes.len()
        invariant
            lowered@ =~= ascii_lowercase(bytes@).take(i as int),
    {
        let byte: u8 = bytes[i];
        lowered.push(if 65 <= byte && byte <= 90 { byte + 32 } else { byte });
    }
    lowered
}

/// What is hashed for an account is its name, the sign `#` and the height in decimal; the case of
/// ASCII letters of the name is all that lowering changes.
pub proof fn law_account_bytes(name: Seq<u8>, height: u32, i: int)
    requires
        0 <= i < name.len(),
    ensures
        account_bytes(name, height) == name + encode_utf8(seq!['#'] + decimal(height as int)),
        ascii_lowercase(name).len() == name.len(),
        65 <= name[i] <= 90 ==> ascii_lowercase(name)[i] == name[i] + 32,
        !(65 <= name[i] <= 90) ==> ascii_lowercase(name)[i] == name[i],
{
    reveal_strlit("#");
    assert("#"@ =~= seq!['#']);
}

} // verus!
