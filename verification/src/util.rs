//! The chain of block headers.

use crate::chain::BlockHeader;
use crate::hashes::{default_hash, null_hash, same_hash, BlockHash};
use crate::table::Table;
use vstd::prelude::*;

verus! {

/// A header with its place in the chain.
#[derive(Clone, Copy, Debug)]
pub struct HeaderEntry {
    pub height: usize,
    pub hash: BlockHash,
    pub header: BlockHeader,
}

impl HeaderEntry {
    /// The hash of the block.
    pub fn hash(&self) -> (hash: &BlockHash)
        ensures
            *hash == self.hash,
    {
        &self.hash
    }

    /// The header of the block.
    pub fn header(&self) -> (header: &BlockHeader)
        ensures
            *header == self.header,
    {
        &self.header
    }

    /// The height of the block.
    pub fn height(&self) -> (height: usize)
        ensures
            height == self.height,
    {
        self.height
    }
}

/// Entry `i` follows the one before it: by one in height, and by naming its hash.
pub open spec fn follows(entries: Seq<HeaderEntry>, i: int) -> bool {
    &&& entries[i].height == entries[i - 1].height + 1
    &&& entries[i].header.prev_blockhash == entries[i - 1].hash
}

/// Each entry follows the one before it.
pub open spec fn linked(entries: Seq<HeaderEntry>) -> bool {
    forall|i: int| 0 < i < entries.len() ==> #[trigger] follows(entries, i)
}

/// The hash of the last entry; the null hash if there is none.
pub open spec fn tip_of(entries: Seq<HeaderEntry>) -> BlockHash {
    if entries.len() == 0 {
        null_hash()
    } else {
        entries.last().hash
    }
}

/// The entries are a chain from the first block on.
pub open spec fn is_chain(entries: Seq<HeaderEntry>) -> bool {
    &&& linked(entries)
    &&& entries.len() > 0 ==> entries[0].height == 0 && entries[0].header.prev_blockhash
        == null_hash()
}

/// The last place at which an entry with this hash stands.
pub open spec fn place_of(entries: Seq<HeaderEntry>, hash: BlockHash) -> Option<int>
    decreases entries.len(),
{
    if entries.len() == 0 {
        None
    } else if entries.last().hash == hash {
        Some(entries.len() - 1)
    } else {
        place_of(entries.drop_last(), hash)
    }
}

/// The entry with this hash, the last one if there are more.
pub open spec fn entry_of(entries: Seq<HeaderEntry>, hash: BlockHash) -> Option<HeaderEntry> {
    match place_of(entries, hash) {
        Some(i) => Some(entries[i]),
        None => None,
    }
}

/// The place that is found holds an entry with the hash; none is found only where there is
/// none.
pub proof fn lemma_place_of(entries: Seq<HeaderEntry>, hash: BlockHash)
    ensures
        match place_of(entries, hash) {
            Some(i) => 0 <= i < entries.len() && entries[i].hash == hash && forall|j: int|
                i < j < entries.len() ==> (#[trigger] entries[j]).hash != hash,
            None => forall|j: int| 0 <= j < entries.len() ==> (#[trigger] entries[j]).hash != hash,
        },
    decreases entries.len(),
{
    if entries.len() > 0 && entries.last().hash != hash {
        lemma_place_of(entries.drop_last(), hash);
        assert forall|j: int| 0 <= j < entries.len() - 1 implies (#[trigger] entries[j])
            == entries.drop_last()[j] by {}
    }
}

/// The headers, from the first one on, as entries from `height` on.
pub open spec fn entries_from(headers: Seq<BlockHeader>, height: int) -> Seq<HeaderEntry> {
    Seq::new(
        headers.len(),
        |i: int|
            HeaderEntry {
                height: (height + i) as usize,
                hash: headers[i].spec_block_hash(),
                header: headers[i],
            },
    )
}

/// Header `i` names the hash of the one before it.
pub open spec fn header_follows(headers: Seq<BlockHeader>, i: int) -> bool {
    headers[i].prev_blockhash == headers[i - 1].spec_block_hash()
}

/// Each header names the hash of the one before it.
pub open spec fn headers_linked(headers: Seq<BlockHeader>) -> bool {
    forall|i: int| 0 < i < headers.len() ==> #[trigger] header_follows(headers, i)
}

/// The height that a successor of `prev` has on top of `entries`: none if `prev` is unknown.
pub open spec fn next_height(entries: Seq<HeaderEntry>, prev: BlockHash) -> Option<int> {
    if prev == null_hash() {
        Some(0)
    } else {
        match entry_of(entries, prev) {
            Some(entry) => Some(entry.height + 1),
            None => None,
        }
    }
}

/// What [`HeaderList::order`] makes of new headers: none if they are not linked, if the block
/// before them is unknown, or if a height is beyond the numbers of the machine.
pub open spec fn ordered(entries: Seq<HeaderEntry>, headers: Seq<BlockHeader>) -> Option<
    Seq<HeaderEntry>,
> {
    if headers.len() == 0 {
        Some(Seq::empty())
    } else if !headers_linked(headers) {
        None
    } else {
        match next_height(entries, headers[0].prev_blockhash) {
            Some(height) => if height + headers.len() <= usize::MAX {
                Some(entries_from(headers, height))
            } else {
                None
            },
            None => None,
        }
    }
}

/// `new` continues `old` at its own first height, up to `tip`.
pub open spec fn continues(old: Seq<HeaderEntry>, new: Seq<HeaderEntry>, tip: BlockHash) -> bool {
    if new.len() == 0 {
        tip == null_hash() || place_of(old, tip) is Some
    } else {
        &&& linked(new)
        &&& new[0].height <= old.len()
        &&& new[0].header.prev_blockhash == tip_of(old.take(new[0].height as int))
        &&& new.last().hash == tip
    }
}

/// The chain after `new` has been put in place of everything from its first height on. Where
/// `new` is empty the chain ends at `tip`.
pub open spec fn applied(old: Seq<HeaderEntry>, new: Seq<HeaderEntry>, tip: BlockHash) -> Seq<
    HeaderEntry,
> {
    if new.len() > 0 {
        old.take(new[0].height as int) + new
    } else if tip == null_hash() {
        Seq::empty()
    } else {
        old.take(place_of(old, tip).unwrap() + 1)
    }
}

/// The entries are a chain from the first block on, each at its height.
pub open spec fn chain_wf(entries: Seq<HeaderEntry>) -> bool {
    &&& is_chain(entries)
    &&& forall|i: int| 0 <= i < entries.len() ==> (#[trigger] entries[i]).height == i
}

/// The table holds for each hash the last place at which an entry with it stands.
pub open spec fn holds_places(
    table: Map<BlockHash, usize>,
    entries: Seq<HeaderEntry>,
) -> bool {
    forall|hash: BlockHash|
        match #[trigger] place_of(entries, hash) {
            Some(i) => table.contains_key(hash) && table[hash] == i,
            None => !table.contains_key(hash),
        }
}

proof fn lemma_places_push(
    table: Map<BlockHash, usize>,
    entries: Seq<HeaderEntry>,
    entry: HeaderEntry,
)
    requires
        holds_places(table, entries),
        entries.len() <= usize::MAX,
    ensures
        holds_places(table.insert(entry.hash, entries.len() as usize), entries.push(entry)),
{
    let after = entries.push(entry);
    assert(after.drop_last() =~= entries);
    let changed = table.insert(entry.hash, entries.len() as usize);
    assert forall|hash: BlockHash|
        match #[trigger] place_of(after, hash) {
            Some(i) => changed.contains_key(hash) && changed[hash] == i,
            None => !changed.contains_key(hash),
        } by {
        assert(after.last() == entry);
        if hash != entry.hash {
            assert(place_of(after, hash) == place_of(entries, hash));
        }
    }
}

/// Where each hash stands in `entries`, the last place if there are more.
pub(crate) fn places(entries: &Vec<HeaderEntry>) -> (table: Table<BlockHash, usize>)
    ensures
        table.wf(),
        holds_places(table@, entries@),
{
    let mut table: Table<BlockHash, usize> = Table::new();
    for i in 0..entries.len()
        invariant
            table.wf(),
            holds_places(table@, entries@.take(i as int)),
    {
        proof {
            lemma_places_push(table@, entries@.take(i as int), entries@[i as int]);
            assert(entries@.take(i as int).push(entries@[i as int]) =~= entries@.take(i + 1));
        }
        table.insert(entries[i].hash, i);
    }
    assert(entries@.take(entries.len() as int) =~= entries@);
    table
}

/// The headers of the chain, from the first block to the tip.
pub struct HeaderList {
    headers: Vec<HeaderEntry>,
    heights: Table<BlockHash, usize>,
}

impl View for HeaderList {
    type V = Seq<HeaderEntry>;

    closed spec fn view(&self) -> Seq<HeaderEntry> {
        self.headers@
    }
}

impl HeaderList {
    /// Each hash can be found.
    pub closed spec fn found(&self) -> bool {
        self.heights.wf() && holds_places(self.heights@, self.headers@)
    }

    /// The entries are a chain from the first block on, each at its height.
    pub open spec fn wf(&self) -> bool {
        chain_wf(self@) && self.found()
    }

    /// A chain without blocks.
    pub fn empty() -> (list: HeaderList)
        ensures
            list.wf(),
            list@ == Seq::<HeaderEntry>::empty(),
    {
        HeaderList { headers: Vec::new(), heights: Table::new() }
    }

    /// How many blocks there are.
    pub fn len(&self) -> (len: usize)
        ensures
            len == self@.len(),
    {
        self.headers.len()
    }

    /// Whether there is no block.
    pub fn is_empty(&self) -> (empty: bool)
        ensures
            empty == (self@.len() == 0),
    {
        self.headers.len() == 0
    }

    /// The block at `height`, if there is one.
    pub fn header_by_height(&self, height: usize) -> (entry: Option<HeaderEntry>)
        ensures
            match entry {
                Some(e) => height < self@.len() && e == self@[height as int],
                None => height >= self@.len(),
            },
    {
        if height < self.headers.len() {
            Some(self.headers[height])
        } else {
            None
        }
    }

    /// The height of the block with this hash, if there is one.
    fn place(&self, hash: &BlockHash) -> (place: Option<usize>)
        requires
            self.found(),
        ensures
            match place {
                Some(i) => place_of(self@, *hash) == Some(i as int) && i < self@.len(),
                None => place_of(self@, *hash) is None,
            },
    {
        proof {
            lemma_place_of(self@, *hash);
        }
        match self.heights.get(hash) {
            Some(place) => Some(*place),
            None => None,
        }
    }

    /// The block with this hash, if there is one.
    pub fn header_by_blockhash(&self, blockhash: &BlockHash) -> (entry: Option<HeaderEntry>)
        requires
            self.wf(),
        ensures
            entry == entry_of(self@, *blockhash),
    {
        match self.place(blockhash) {
            Some(i) => Some(self.headers[i]),
            None => None,
        }
    }

    /// The hash of the last block; the null hash if there is none.
    pub fn tiphash(&self) -> (hash: BlockHash)
        ensures
            hash == tip_of(self@),
    {
        if self.headers.len() == 0 {
            default_hash()
        } else {
            self.headers[self.headers.len() - 1].hash
        }
    }

    /// The last block, if there is one.
    pub fn tip(&self) -> (entry: Option<HeaderEntry>)
        ensures
            match entry {
                Some(e) => self@.len() > 0 && e == self@.last(),
                None => self@.len() == 0,
            },
    {
        if self.headers.len() == 0 {
            None
        } else {
            Some(self.headers[self.headers.len() - 1])
        }
    }

    /// Gives new headers, in ascending order, their hashes and their heights on top of this
    /// chain.
    pub fn order(&self, new_headers: &Vec<BlockHeader>) -> (entries: Option<Vec<HeaderEntry>>)
        requires
            self.wf(),
        ensures
            entries is Some <==> ordered(self@, new_headers@) is Some,
            entries is Some ==> entries.unwrap()@ == ordered(self@, new_headers@).unwrap(),
    {
        let mut entries: Vec<HeaderEntry> = Vec::new();
        if new_headers.len() == 0 {
            return Some(entries);
        }
        let prev = new_headers[0].prev_blockhash;
        let ghost height = next_height(self@, prev);
        let start: Option<usize> = if same_hash(&prev, &default_hash()) {
            Some(0)
        } else {
            match self.header_by_blockhash(&prev) {
                Some(entry) => entry.height.checked_add(1),
                None => None,
            }
        };
        let base: usize = match start {
            Some(base) => base,
            None => {
                return None;
            },
        };
        assert(height == Some(base as int));
        if new_headers.len() > usize::MAX - base {
            return None;
        }
        for i in 0..new_headers.len()
            invariant
                base + new_headers.len() <= usize::MAX,
                entries@ =~= entries_from(new_headers@, base as int).take(i as int),
                forall|j: int| 0 < j < i ==> #[trigger] header_follows(new_headers@, j),
                new_headers.len() > 0,
        {
            let header = new_headers[i];
            if i > 0 && !same_hash(&header.prev_blockhash, &entries[i - 1].hash) {
                assert(entries@[i - 1] == entries_from(new_headers@, base as int)[i - 1]);
                assert(!header_follows(new_headers@, i as int));
                return None;
            }
            assert(i > 0 ==> entries@[i - 1] == entries_from(new_headers@, base as int)[i - 1]);
            entries.push(HeaderEntry { height: base + i, hash: header.block_hash(), header });
        }
        Some(entries)
    }

    /// Whether `new_headers` continue this chain at their own first height, up to `tip`.
    pub fn accepts(&self, new_headers: &Vec<HeaderEntry>, tip: &BlockHash) -> (accepts: bool)
        requires
            self.wf(),
        ensures
            accepts == continues(self@, new_headers@, *tip),
    {
        if new_headers.len() == 0 {
            return same_hash(tip, &default_hash()) || self.place(tip).is_some();
        }
        let base: usize = new_headers[0].height;
        if base > self.headers.len() {
            return false;
        }
        let prev = if base == 0 { default_hash() } else { self.headers[base - 1].hash };
        assert(prev == tip_of(self@.take(base as int)));
        if !same_hash(&new_headers[0].header.prev_blockhash, &prev) {
            return false;
        }
        for i in 1..new_headers.len()
            invariant
                forall|j: int| 0 < j < i ==> #[trigger] follows(new_headers@, j),
        {
            let (entry, before) = (&new_headers[i], &new_headers[i - 1]);
            if before.height == usize::MAX || entry.height != before.height + 1 || !same_hash(
                &entry.header.prev_blockhash,
                &before.hash,
            ) {
                assert(!follows(new_headers@, i as int));
                return false;
            }
        }
        same_hash(&new_headers[new_headers.len() - 1].hash, tip)
    }

    /// Puts `new_headers` in place of everything from their first height on, so that the
    /// chain ends at `tip`.
    pub fn apply(&mut self, new_headers: &Vec<HeaderEntry>, tip: BlockHash)
        requires
            old(self).wf(),
            continues(old(self)@, new_headers@, tip),
        ensures
            final(self).wf(),
            final(self)@ == applied(old(self)@, new_headers@, tip),
            tip_of(final(self)@) == tip,
    {
        proof {
            lemma_place_of(self@, tip);
        }
        if new_headers.len() == 0 {
            if same_hash(&tip, &default_hash()) {
                self.headers.clear();
            } else {
                let place = self.place(&tip).unwrap();
                assert(place < self.headers.len());
                self.headers.truncate(place + 1);
                assert(self@ =~= applied(old(self)@, new_headers@, tip));
                assert forall|i: int| 0 < i < self@.len() implies #[trigger] follows(self@, i) by {
                    assert(follows(old(self)@, i));
                }
            }
            self.heights = places(&self.headers);
            return;
        }
        let base: usize = new_headers[0].height;
        if base < self.headers.len() {
            self.headers.truncate(base);
            self.heights = places(&self.headers);
        }
        let ghost kept = self@;
        assert(kept =~= old(self)@.take(base as int));
        for i in 0..new_headers.len()
            invariant
                kept == old(self)@.take(base as int),
                self@ =~= kept + new_headers@.take(i as int),
                self.found(),
        {
            assert(self.headers.len() <= usize::MAX);
            proof {
                lemma_places_push(self.heights@, self.headers@, new_headers@[i as int]);
            }
            self.heights.insert(new_headers[i].hash, self.headers.len());
            self.headers.push(new_headers[i]);
        }
        assert(self@ =~= applied(old(self)@, new_headers@, tip));
        proof {
            lemma_applied_is_chain(old(self)@, new_headers@, tip);
        }
    }
}

/// The heights of linked entries count up from the first one.
proof fn lemma_linked_heights(entries: Seq<HeaderEntry>, i: int)
    requires
        linked(entries),
        0 <= i < entries.len(),
    ensures
        entries[i].height == entries[0].height + i,
    decreases i,
{
    if i > 0 {
        assert(follows(entries, i));
        lemma_linked_heights(entries, i - 1);
    }
}

/// What comes of applying new entries is a chain.
proof fn lemma_applied_is_chain(old: Seq<HeaderEntry>, new: Seq<HeaderEntry>, tip: BlockHash)
    requires
        chain_wf(old),
        new.len() > 0,
        continues(old, new, tip),
    ensures
        chain_wf(applied(old, new, tip)),
{
    let base = new[0].height as int;
    let all = applied(old, new, tip);
    assert forall|i: int| 0 <= i < all.len() implies (#[trigger] all[i]).height == i by {
        if i >= base {
            lemma_linked_heights(new, i - base);
        }
    }
    assert forall|i: int| 0 < i < all.len() implies #[trigger] follows(all, i) by {
        assert(all[i].height == i);
        assert(all[i - 1].height == i - 1);
        if i < base {
            assert(all[i] == old[i] && all[i - 1] == old[i - 1]);
            assert(follows(old, i));
        } else if i == base {
            assert(all[i] == new[0]);
            assert(all[i - 1] == old.take(base).last());
        } else {
            assert(all[i] == new[i - base] && all[i - 1] == new[i - base - 1]);
            assert(follows(new, i - base));
        }
    }
}

/// The block that is found by a hash is the last one with it, and none is found only where no
/// block has it.
pub proof fn law_found_by_hash(entries: Seq<HeaderEntry>, hash: BlockHash)
    ensures
        entry_of(entries, hash) is None <==> forall|i: int|
            0 <= i < entries.len() ==> (#[trigger] entries[i]).hash != hash,
        entry_of(entries, hash) is Some ==> exists|i: int|
            0 <= i < entries.len() && #[trigger] entries[i] == entry_of(entries, hash).unwrap()
                && entries[i].hash == hash && forall|j: int|
                i < j < entries.len() ==> (#[trigger] entries[j]).hash != hash,
{
    lemma_place_of(entries, hash);
    if let Some(i) = place_of(entries, hash) {
        assert(entries[i] == entry_of(entries, hash).unwrap());
    }
}

/// The last block of a chain is found by the hash of its tip; a chain without blocks has none.
pub proof fn law_tip_found(entries: Seq<HeaderEntry>)
    ensures
        entries.len() > 0 ==> tip_of(entries) == entries[entries.len() - 1].hash && entry_of(
            entries,
            tip_of(entries),
        ) == Some(entries[entries.len() - 1]),
        entries.len() == 0 ==> entry_of(entries, tip_of(entries)) is None,
{
    lemma_place_of(entries, tip_of(entries));
}

/// Without new blocks a chain can be cut to any of its blocks, or to none.
pub proof fn law_cut_back(entries: Seq<HeaderEntry>, tip: BlockHash)
    ensures
        continues(entries, Seq::empty(), tip) <==> tip == null_hash() || exists|i: int|
            0 <= i < entries.len() && (#[trigger] entries[i]).hash == tip,
{
    lemma_place_of(entries, tip);
    if let Some(i) = place_of(entries, tip) {
        assert(entries[i].hash == tip);
    }
}

/// New blocks continue a chain exactly if each follows the one before it, by one in height and by
/// naming its hash, the first follows the block below it, or is the first of all, and the last
/// is the tip.
pub proof fn law_continues(old: Seq<HeaderEntry>, new: Seq<HeaderEntry>, tip: BlockHash)
    requires
        new.len() > 0,
    ensures
        continues(old, new, tip) <==> {
            &&& forall|i: int|
                0 < i < new.len() ==> (#[trigger] new[i]).height == new[i - 1].height + 1
                    && new[i].header.prev_blockhash == new[i - 1].hash
            &&& new[0].height <= old.len()
            &&& new[0].height == 0 ==> new[0].header.prev_blockhash == null_hash()
            &&& new[0].height > 0 ==> new[0].header.prev_blockhash == old[new[0].height - 1].hash
            &&& new[new.len() - 1].hash == tip
        },
{
    let base = new[0].height as int;
    if 0 < base <= old.len() {
        assert(old.take(base).last() == old[base - 1]);
    }
    if linked(new) {
        assert forall|i: int| 0 < i < new.len() implies (#[trigger] new[i]).height == new[i
            - 1].height + 1 && new[i].header.prev_blockhash == new[i - 1].hash by {
            assert(follows(new, i));
        }
    }
}

/// The blocks of a chain stand at the heights from 0 on, and each names the hash of the one below
/// it, the first the null hash.
pub proof fn law_chain(entries: Seq<HeaderEntry>)
    ensures
        chain_wf(entries) <==> forall|i: int|
            0 <= i < entries.len() ==> (#[trigger] entries[i]).height == i
                && entries[i].header.prev_blockhash == if i == 0 {
                null_hash()
            } else {
                entries[i - 1].hash
            },
{
    if chain_wf(entries) {
        assert forall|i: int| 0 <= i < entries.len() implies (#[trigger] entries[i]).height == i
            && entries[i].header.prev_blockhash == if i == 0 {
            null_hash()
        } else {
            entries[i - 1].hash
        } by {
            if i > 0 {
                assert(follows(entries, i));
            }
        }
    } else if forall|i: int|
        0 <= i < entries.len() ==> (#[trigger] entries[i]).height == i
            && entries[i].header.prev_blockhash == if i == 0 {
            null_hash()
        } else {
            entries[i - 1].hash
        } {
        assert forall|i: int| 0 < i < entries.len() implies #[trigger] follows(entries, i) by {
            assert(entries[i].height == i && entries[i - 1].height == i - 1);
        }
    }
}

} // verus!
