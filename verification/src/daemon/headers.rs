//! Which headers are asked of the daemon, and in which order they are given to the index.

use crate::chain::BlockHeader;
use crate::errors::{Error, ErrorView};
use crate::hashes::{default_hash, hash_text, hash_to_hex, null_hash, same_hash, BlockHash};
use crate::index::headers_tip;
use crate::index::laws::headers_chain;
use crate::json::{Json, JsonView};
use crate::util::{
    chain_wf, continues, header_follows, lemma_place_of, next_height, ordered, place_of,
    HeaderEntry, HeaderList,
};
use vstd::prelude::*;

verus! {

/// How many headers are asked for at a time.
pub const HEADERS_CHUNK: usize = 100_000;

/// Whether all headers are to be asked for by their heights: only where none is indexed yet.
/// Otherwise the new ones are followed back from the tip.
pub fn wants_all_headers(indexed: &HeaderList) -> (all: bool)
    ensures
        all == (indexed@.len() == 0),
{
    indexed.is_empty()
}

/// The height in the description of a header: none if there is no such number.
pub open spec fn height_value(info: JsonView) -> Option<u64> {
    match info.field("height"@) {
        Some(height) => height.unsigned(),
        None => None,
    }
}

/// The height in the description of a header: none if there is no such number.
pub fn parse_height(info: &Json) -> (height: Option<u64>)
    ensures
        height == height_value(info@),
{
    match info.get("height") {
        Some(height) => height.as_u64(),
        None => None,
    }
}

/// How many headers are asked for from `from` on, if `tip_height` is that of the last block.
fn next_count(from: usize, tip_height: usize) -> (count: usize)
    ensures
        count == chunk_len(from as int, tip_height as int),
{
    if from > tip_height {
        0
    } else if tip_height - from < HEADERS_CHUNK - 1 {
        tip_height - from + 1
    } else {
        HEADERS_CHUNK
    }
}

/// The next heights to ask for, from `from` up to `tip_height`: as many as are asked for at a
/// time, or as are left.
pub fn next_heights(from: usize, tip_height: usize) -> (heights: Vec<usize>)
    ensures
        heights.len() == chunk_len(from as int, tip_height as int),
        forall|i: int| 0 <= i < heights.len() ==> #[trigger] heights[i] == from + i,
{
    let mut heights: Vec<usize> = Vec::new();
    if from > tip_height {
        return heights;
    }
    let count: usize = next_count(from, tip_height);
    for i in 0..count
        invariant
            from + count - 1 <= tip_height,
            heights.len() == i,
            forall|j: int| 0 <= j < i ==> #[trigger] heights[j] == from + j,
    {
        heights.push(from + i);
    }
    heights
}

/// Whether the headers are a chain from the first block to `tip`.
pub fn is_chain_to(headers: &Vec<BlockHeader>, tip: &BlockHash) -> (is_chain: bool)
    ensures
        is_chain == (headers_chain(headers@) && headers_tip(headers@) == *tip),
{
    let mut blockhash = default_hash();
    for i in 0..headers.len()
        invariant
            blockhash == headers_tip(headers@.take(i as int)),
            forall|j: int| 0 < j < i ==> #[trigger] header_follows(headers@, j),
            i > 0 ==> headers@[0].prev_blockhash == null_hash(),
    {
        assert(i > 0 ==> headers@.take(i as int).last() == headers@[i - 1]);
        if !same_hash(&headers[i].prev_blockhash, &blockhash) {
            assert(i > 0 ==> !header_follows(headers@, i as int));
            return false;
        }
        blockhash = headers[i].block_hash();
        assert(headers@.take(i + 1).last() == headers@[i as int]);
    }
    assert(headers@.take(headers.len() as int) =~= headers@);
    same_hash(&blockhash, tip)
}

/// All headers up to a height, which are fetched some at a time.
pub struct AllHeaders {
    tip_height: usize,
    headers: Vec<BlockHeader>,
}

impl AllHeaders {
    /// The headers so far.
    pub closed spec fn fetched(&self) -> Seq<BlockHeader> {
        self.headers@
    }

    /// The height of the last block.
    pub closed spec fn spec_tip_height(&self) -> usize {
        self.tip_height
    }

    /// Begins at the first block.
    pub fn new(tip_height: usize) -> (headers: AllHeaders)
        ensures
            headers.fetched() == Seq::<BlockHeader>::empty(),
            headers.spec_tip_height() == tip_height,
    {
        AllHeaders { tip_height, headers: Vec::new() }
    }

    /// The heights to ask for next; none once all headers have come.
    pub fn wanted(&self) -> (heights: Vec<usize>)
        ensures
            heights.len() == chunk_len(self.fetched().len() as int, self.spec_tip_height() as int),
            forall|i: int|
                0 <= i < heights.len() ==> #[trigger] heights[i] == self.fetched().len() + i,
    {
        next_heights(self.headers.len(), self.tip_height)
    }

    /// Takes the headers at the heights that were asked for, and says whether there are as
    /// many; none is taken if there are more or fewer.
    pub fn take(&mut self, headers: Vec<BlockHeader>) -> (taken: bool)
        ensures
            taken == (headers.len() == chunk_len(
                old(self).fetched().len() as int,
                old(self).spec_tip_height() as int,
            )),
            final(self).fetched() == if taken {
                old(self).fetched() + headers@
            } else {
                old(self).fetched()
            },
            final(self).spec_tip_height() == old(self).spec_tip_height(),
    {
        if headers.len() != next_count(self.headers.len(), self.tip_height) {
            return false;
        }
        let mut headers = headers;
        self.headers.append(&mut headers);
        true
    }

    /// The headers, if there is one for each height and they are a chain from the first block
    /// to `tip`.
    pub fn finish(self, tip: &BlockHash) -> (headers: Option<Vec<BlockHeader>>)
        ensures
            headers is Some <==> self.fetched().len() == self.spec_tip_height() + 1
                && headers_chain(self.fetched()) && headers_tip(self.fetched()) == *tip,
            headers is Some ==> headers.unwrap()@ == self.fetched(),
    {
        if self.headers.len() == 0 || self.headers.len() - 1 != self.tip_height {
            return None;
        }
        if is_chain_to(&self.headers, tip) {
            Some(self.headers)
        } else {
            None
        }
    }
}

/// How many headers are asked for from `from` on, if `tip_height` is that of the last block.
pub open spec fn chunk_len(from: int, tip_height: int) -> int {
    if from > tip_height {
        0
    } else if tip_height - from + 1 < HEADERS_CHUNK {
        tip_height - from + 1
    } else {
        HEADERS_CHUNK as int
    }
}

/// The headers that are asked for never go beyond the last block, and none is asked for only
/// once there is one for each height up to it.
pub proof fn law_chunks_reach_tip(from: int, tip_height: int)
    requires
        0 <= from <= tip_height + 1,
    ensures
        from + chunk_len(from, tip_height) <= tip_height + 1,
        chunk_len(from, tip_height) == 0 <==> from == tip_height + 1,
{
}

/// The headers that are fetched from a block back to one that is known.
pub struct NewHeaders {
    descending: Vec<BlockHeader>,
    next: BlockHash,
}

impl NewHeaders {
    /// The headers so far, in the order in which they were fetched.
    pub closed spec fn fetched(&self) -> Seq<BlockHeader> {
        self.descending@
    }

    /// The block to look for next.
    pub closed spec fn spec_next(&self) -> BlockHash {
        self.next
    }

    /// Begins at `bestblockhash`.
    pub fn new(bestblockhash: BlockHash) -> (headers: NewHeaders)
        ensures
            headers.fetched() == Seq::<BlockHeader>::empty(),
            headers.spec_next() == bestblockhash,
    {
        NewHeaders { descending: Vec::new(), next: bestblockhash }
    }

    /// The block to fetch next: none if the first block or one that is known is reached.
    pub fn wanted(&self, indexed_headers: &HeaderList) -> (wanted: Option<BlockHash>)
        requires
            indexed_headers.wf(),
        ensures
            wanted == wanted_of(self.spec_next(), indexed_headers@),
    {
        if same_hash(&self.next, &default_hash()) || indexed_headers.header_by_blockhash(
            &self.next,
        ).is_some() {
            None
        } else {
            Some(self.next)
        }
    }

    /// Takes the header that was fetched.
    pub fn take(&mut self, header: BlockHeader)
        ensures
            final(self).fetched() == old(self).fetched().push(header),
            final(self).spec_next() == header.prev_blockhash,
    {
        self.descending.push(header);
        self.next = header.prev_blockhash;
    }

    /// The headers by ascending height, so that the one fetched first comes last.
    pub fn finish(self) -> (headers: Vec<BlockHeader>)
        ensures
            headers@ == self.fetched().reverse(),
    {
        let mut headers: Vec<BlockHeader> = Vec::new();
        for i in 0..self.descending.len()
            invariant
                headers@ =~= self.fetched().reverse().take(i as int),
        {
            headers.push(self.descending[self.descending.len() - 1 - i]);
        }
        headers
    }
}

/// The error of a header that cannot be fetched.
pub fn header_error(blockhash: &BlockHash, cause: Error) -> (error: Error)
    ensures
        error@ == ErrorView::Caused(
            "failed to get "@ + hash_text(*blockhash) + " header"@,
            Box::new(cause@),
        ),
{
    let text = String::from_str("failed to get ").concat(&hash_to_hex(blockhash)).concat(" header");
    Error::Caused(text, Box::new(cause))
}

/// The block to fetch next: none if the first block or one that is known is reached.
pub open spec fn wanted_of(next: BlockHash, indexed: Seq<HeaderEntry>) -> Option<BlockHash> {
    if next == null_hash() || place_of(indexed, next) is Some {
        None
    } else {
        Some(next)
    }
}

/// The hash for which fetched header `i` was asked.
pub open spec fn asked_for(best: BlockHash, fetched: Seq<BlockHeader>, i: int) -> BlockHash {
    if i == 0 {
        best
    } else {
        fetched[i - 1].prev_blockhash
    }
}

/// If the daemon gives for each hash the header with that hash, the headers that are fetched
/// from `best` back to a known block belong on top of the indexed chain, and make `best` its
/// tip.
pub proof fn law_new_headers_continue(
    indexed: Seq<HeaderEntry>,
    best: BlockHash,
    fetched: Seq<BlockHeader>,
)
    requires
        chain_wf(indexed),
        fetched.len() > 0,
        indexed.len() + fetched.len() <= usize::MAX,
        forall|i: int|
            0 <= i < fetched.len() ==> (#[trigger] fetched[i]).spec_block_hash() == asked_for(
                best,
                fetched,
                i,
            ),
        wanted_of(fetched.last().prev_blockhash, indexed) is None,
    ensures
        ordered(indexed, fetched.reverse()) is Some,
        continues(indexed, ordered(indexed, fetched.reverse()).unwrap(), best),
{
    let headers = fetched.reverse();
    let n = headers.len();
    assert forall|i: int| 0 < i < n implies #[trigger] header_follows(headers, i) by {
        assert(fetched[n - i].spec_block_hash() == asked_for(best, fetched, n - i));
    }
    let prev = headers[0].prev_blockhash;
    assert(prev == fetched.last().prev_blockhash);
    lemma_place_of(indexed, prev);
    assert(next_height(indexed, prev) is Some);
    assert(next_height(indexed, prev).unwrap() <= indexed.len());
    assert(headers.last() == fetched[0]);
    assert(fetched[0].spec_block_hash() == best);
    crate::index::law_ordered_continues(indexed, headers, best);
}

} // verus!
