//! When the index is brought up to date, and how the server greets.

use crate::errors::Error;
use crate::hashes::{default_hash, null_hash, same_hash, BlockHash};
use crate::util::HeaderEntry;
use vstd::prelude::*;

verus! {

/// The last block that the index was brought up to, and the greeting.
pub struct App {
    banner: String,
    tip: BlockHash,
}

impl App {
    /// The last block that the index was brought up to; the null hash at first.
    pub closed spec fn spec_tip(&self) -> BlockHash {
        self.tip
    }

    /// The text with which the greeting begins.
    pub closed spec fn spec_banner(&self) -> Seq<char> {
        self.banner@
    }

    /// Nothing has been indexed yet.
    pub fn new(banner: String) -> (app: App)
        ensures
            app.spec_tip() == null_hash(),
            app.spec_banner() == banner@,
    {
        App { banner, tip: default_hash() }
    }

    /// Whether the best block of the daemon is another than the last one.
    pub fn is_new_block(&self, best: &BlockHash) -> (new_block: bool)
        ensures
            new_block == (self.spec_tip() != *best),
    {
        !same_hash(&self.tip, best)
    }

    /// What an update answers, if `best` is the best block of the daemon: nothing new if that
    /// is the last one, and else what bringing the index up to date has given. The last block
    /// is then the new one; after an error it is the same, so that the next update tries again.
    pub fn update(
        &mut self,
        best: &BlockHash,
        indexed: Option<Result<(Vec<HeaderEntry>, HeaderEntry), Error>>,
    ) -> (answer: Result<(Vec<HeaderEntry>, Option<HeaderEntry>), Error>)
        requires
            old(self).spec_tip() != *best ==> indexed is Some,
        ensures
            final(self).spec_banner() == old(self).spec_banner(),
            old(self).spec_tip() == *best ==> final(self).spec_tip() == old(self).spec_tip() && (
            answer matches Ok((headers, tip)) && headers@.len() == 0 && tip is None),
            old(self).spec_tip() != *best ==> match indexed.unwrap() {
                Ok((headers, tip)) => answer == Ok::<(Vec<HeaderEntry>, Option<HeaderEntry>), Error>(
                    (headers, Some(tip)),
                ) && final(self).spec_tip() == tip.hash,
                Err(error) => answer == Err::<(Vec<HeaderEntry>, Option<HeaderEntry>), Error>(error)
                    && final(self).spec_tip() == old(self).spec_tip(),
            },
    {
        if !self.is_new_block(best) {
            return Ok((Vec::new(), None));
        }
        match indexed.unwrap() {
            Ok((new_headers, new_tip)) => {
                self.tip = *new_tip.hash();
                Ok((new_headers, Some(new_tip)))
            },
            Err(error) => Err(error),
        }
    }

    /// The greeting: the text, and what the daemon calls itself on a line of its own.
    pub fn get_banner(&self, subversion: &str) -> (banner: String)
        ensures
            banner@ == self.spec_banner() + "\n"@ + subversion@,
    {
        self.banner.clone().concat("\n").concat(subversion)
    }
}

} // verus!
