//! Hashes, headers, blocks and transactions in the replies of the daemon.

use crate::chain::{
    deserialize_block, deserialize_header, deserialize_transaction, header_bytes_error, header_in,
    law_header_encoding_injective, lemma_header_in, parsed_block, parsed_transaction, Block,
    BlockHeader, BlockView, Transaction, TransactionView,
};
use crate::errors::{outcome, outcome_view, Error, ErrorView};
use crate::hashes::{
    hash_from_hex, hash_in, hash_of_text, hash_text, hash_text_error, hex_decode, hex_error,
    hex_text, law_hash_text_read_back, law_hex_read_back, lemma_hash_in, unhex, FullHash,
};
use crate::json::{json_text, write_json, Json, JsonView};
use vstd::prelude::*;
use vstd::utf8::*;

verus! {

/// The hash that a value shows in hexadecimal.
pub open spec fn hash_value(value: JsonView) -> Result<FullHash, ErrorView> {
    match value.text() {
        Some(text) => match hash_of_text(encode_utf8(text)) {
            Some(bytes) => Ok(hash_in(bytes)),
            None => Err(
                ErrorView::caused_by("non-hex value: "@ + json_text(value), hash_text_error(text)),
            ),
        },
        None => Err(ErrorView::Message("non-string value: "@ + json_text(value))),
    }
}

/// The hash that a value shows in hexadecimal.
pub fn parse_hash(value: &Json) -> (hash: Result<FullHash, Error>)
    ensures
        outcome(hash) == hash_value(value@),
{
    match value.as_str() {
        Some(text) => match hash_from_hex(text) {
            Ok(hash) => {
                proof {
                    lemma_hash_in(hash);
                }
                Ok(hash)
            },
            Err(cause) => {
                let text = String::from_str("non-hex value: ").concat(&write_json(value));
                Err(Error::caused_by(text.as_str(), cause))
            },
        },
        None => Err(
            Error::Message(String::from_str("non-string value: ").concat(&write_json(value))),
        ),
    }
}

/// The header that a value holds in hexadecimal.
pub open spec fn header_value(value: JsonView) -> Result<BlockHeader, ErrorView> {
    match value.text() {
        Some(text) => match unhex(encode_utf8(text)) {
            Some(bytes) => if bytes.len() == 80 {
                Ok(header_in(bytes))
            } else {
                Err(
                    ErrorView::caused_by(
                        "failed to parse header "@ + text,
                        header_bytes_error(bytes),
                    ),
                )
            },
            None => Err(ErrorView::caused_by("non-hex header"@, hex_error(text))),
        },
        None => Err(ErrorView::Message("non-string header: "@ + json_text(value))),
    }
}

/// The header that a value holds in hexadecimal.
pub fn header_from_value(value: &Json) -> (header: Result<BlockHeader, Error>)
    ensures
        outcome(header) == header_value(value@),
{
    match value.as_str() {
        Some(text) => match hex_decode(text) {
            Ok(bytes) => match deserialize_header(bytes.as_slice()) {
                Ok(header) => {
                    proof {
                        lemma_header_in(header);
                    }
                    Ok(header)
                },
                Err(cause) => {
                    let text = String::from_str("failed to parse header ").concat(text);
                    Err(Error::caused_by(text.as_str(), cause))
                },
            },
            Err(cause) => Err(Error::caused_by("non-hex header", cause)),
        },
        None => Err(
            Error::Message(String::from_str("non-string header: ").concat(&write_json(value))),
        ),
    }
}

/// The block that a value holds in hexadecimal.
pub open spec fn block_value(value: JsonView) -> Result<BlockView, ErrorView> {
    match value.text() {
        Some(text) => match unhex(encode_utf8(text)) {
            Some(bytes) => match parsed_block(bytes) {
                Ok(block) => Ok(block),
                Err(cause) => Err(ErrorView::caused_by("failed to parse block "@ + text, cause)),
            },
            None => Err(ErrorView::caused_by("non-hex block"@, hex_error(text))),
        },
        None => Err(ErrorView::Message("non-string block"@)),
    }
}

/// The block that a value holds in hexadecimal.
pub fn block_from_value(value: &Json) -> (block: Result<Block, Error>)
    ensures
        outcome_view(block) == block_value(value@),
        block matches Ok(block) ==> block@.hashable(),
{
    match value.as_str() {
        Some(text) => match hex_decode(text) {
            Ok(bytes) => match deserialize_block(bytes.as_slice()) {
                Ok(block) => Ok(block),
                Err(cause) => {
                    let text = String::from_str("failed to parse block ").concat(text);
                    Err(Error::caused_by(text.as_str(), cause))
                },
            },
            Err(cause) => Err(Error::caused_by("non-hex block", cause)),
        },
        None => Err(Error::message("non-string block")),
    }
}

/// The transaction that a value holds in hexadecimal.
pub open spec fn tx_value(value: JsonView) -> Result<TransactionView, ErrorView> {
    match value.text() {
        Some(text) => match unhex(encode_utf8(text)) {
            Some(bytes) => match parsed_transaction(bytes) {
                Ok(tx) => Ok(tx),
                Err(cause) => Err(ErrorView::caused_by("failed to parse tx "@ + text, cause)),
            },
            None => Err(ErrorView::caused_by("non-hex tx"@, hex_error(text))),
        },
        None => Err(ErrorView::Message("non-string tx"@)),
    }
}

/// Whether a value holds these bytes in hexadecimal.
pub open spec fn is_hex_of(value: JsonView, bytes: Seq<u8>) -> bool {
    value.text() is Some && unhex(encode_utf8(value.text().unwrap())) == Some(bytes)
}

/// The transaction that a value holds in hexadecimal.
pub fn tx_from_value(value: &Json) -> (tx: Result<Transaction, Error>)
    ensures
        outcome_view(tx) == tx_value(value@),
        tx matches Ok(tx) ==> tx@.hashable() && is_hex_of(value@, tx@.raw),
{
    match value.as_str() {
        Some(text) => match hex_decode(text) {
            Ok(bytes) => match deserialize_transaction(bytes.as_slice()) {
                Ok(tx) => Ok(tx),
                Err(cause) => {
                    let text = String::from_str("failed to parse tx ").concat(text);
                    Err(Error::caused_by(text.as_str(), cause))
                },
            },
            Err(cause) => Err(Error::caused_by("non-hex tx", cause)),
        },
        None => Err(Error::message("non-string tx")),
    }
}

/// What is shown in hexadecimal is read from a value as it was: a hash, a header, and the bytes
/// of a transaction.
pub proof fn law_values_read_back(hash: FullHash, header: BlockHeader, bytes: Seq<u8>)
    ensures
        hash_value(JsonView::Str(hash_text(hash))) == Ok::<FullHash, ErrorView>(hash),
        header_value(JsonView::Str(hex_text(header.bytes()))) == Ok::<BlockHeader, ErrorView>(
            header,
        ),
        parsed_transaction(bytes) matches Ok(tx) ==> tx_value(JsonView::Str(hex_text(bytes)))
            == Ok::<TransactionView, ErrorView>(tx),
{
    law_hash_text_read_back(hash);
    lemma_hash_in(hash);
    law_hex_read_back(header.bytes());
    law_header_encoding_injective(header, header);
    lemma_header_in(header);
    law_hex_read_back(bytes);
}

} // verus!
