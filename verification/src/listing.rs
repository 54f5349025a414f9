//! Classifying the immediate children of one directory.
//!
//! A directory listing is reduced to the sequence of is-directory flags of
//! its entries, in the order the listing yields them. [`listing_of`] maps
//! that sequence to the four outcomes the resolver distinguishes, and
//! [`Scanner`] computes the outcome incrementally, one entry at a time, so
//! that a caller walking a real listing can stop reading as soon as the
//! decision is settled.

use vstd::prelude::*;

verus! {

/// Outcome of examining the immediate children of one directory.
#[derive(Clone, Copy, Debug, PartialEq, Eq, Structural)]
pub enum Listing {
    /// The directory holds no entries at all.
    Empty,
    /// The directory holds exactly one entry, and it is a directory.
    OneSubdir,
    /// The directory holds exactly one entry, and it is not a directory.
    OneFile,
    /// The directory holds two or more entries, of any kind.
    Many,
}

/// The outcome determined by the is-directory flags of the entries, in
/// listing order.
pub open spec fn listing_of(flags: Seq<bool>) -> Listing {
    if flags.len() == 0 {
        Listing::Empty
    } else if flags.len() == 1 {
        if flags[0] {
            Listing::OneSubdir
        } else {
            Listing::OneFile
        }
    } else {
        Listing::Many
    }
}

/// Whether the descent continues from a directory with this listing: only a
/// lone subdirectory is worth descending into.
pub open spec fn spec_descend(l: Listing) -> bool {
    l == Listing::OneSubdir
}

/// A scan of `flags` is settled once no further entries could make the
/// resolver descend: either a second entry has been seen, or the first
/// entry is not a directory.
pub open spec fn scan_settled(flags: Seq<bool>) -> bool {
    flags.len() >= 2 || (flags.len() == 1 && !flags[0])
}

/// Once a scan of a prefix is settled, the whole listing is known not to be
/// a lone subdirectory, whatever the unread entries hold: stopping early is
/// sound, and the resolver halts at this directory.
pub proof fn lemma_settled_halts(flags: Seq<bool>, i: int)
    requires
        0 <= i <= flags.len(),
        scan_settled(flags.take(i)),
    ensures
        !spec_descend(listing_of(flags)),
        listing_of(flags) != Listing::Empty,
{
    assert(flags.take(i).len() == i);
    if i == 1 {
        assert(flags[0] == flags.take(i)[0]);
    }
}

/// Incremental scanner over the entries of one directory listing.
///
/// Feed the is-directory flag of each entry in order; `feed` reports when
/// the scan is settled and reading may stop, and `listing` returns the
/// outcome of the flags fed so far.
pub struct Scanner {
    /// Ghost record of every flag fed so far, in order.
    fed: Ghost<Seq<bool>>,
    /// The first flag fed, if any entry has been seen.
    first: Option<bool>,
    /// Whether a second entry has been seen.
    second_seen: bool,
}

impl View for Scanner {
    type V = Seq<bool>;

    closed spec fn view(&self) -> Seq<bool> {
        self.fed@
    }
}

impl Scanner {
    #[verifier::type_invariant]
    spec fn wf(self) -> bool {
        &&& self.second_seen == (self.fed@.len() >= 2)
        &&& match self.first {
            None => self.fed@.len() == 0,
            Some(d) => self.fed@.len() >= 1 && d == self.fed@[0],
        }
    }

    /// A scanner that has seen no entries yet.
    pub fn new() -> (s: Scanner)
        ensures
            s@ == Seq::<bool>::empty(),
    {
        Scanner { fed: Ghost(Seq::empty()), first: None, second_seen: false }
    }

    /// Record the next entry of the listing. Returns true exactly when the
    /// scan is now settled, so that no further entry needs to be read.
    pub fn feed(&mut self, is_dir: bool) -> (stop: bool)
        ensures
            final(self)@ == old(self)@.push(is_dir),
            stop == scan_settled(final(self)@),
    {
        proof {
            use_type_invariant(&*self);
        }
        let next = match self.first {
            None => Scanner {
                fed: Ghost(self.fed@.push(is_dir)),
                first: Some(is_dir),
                second_seen: false,
            },
            Some(d) => Scanner {
                fed: Ghost(self.fed@.push(is_dir)),
                first: Some(d),
                second_seen: true,
            },
        };
        let first_is_dir = match next.first {
            Some(d) => d,
            None => true,
        };
        let stop = next.second_seen || !first_is_dir;
        *self = next;
        stop
    }

    /// The outcome of the entries fed so far.
    pub fn listing(&self) -> (l: Listing)
        ensures
            l == listing_of(self@),
    {
        proof {
            use_type_invariant(self);
        }
        match self.first {
            None => Listing::Empty,
            Some(d) => {
                if self.second_seen {
                    Listing::Many
                } else if d {
                    Listing::OneSubdir
                } else {
                    Listing::OneFile
                }
            },
        }
    }
}

/// Whether the descent continues from a directory with listing `l`.
pub fn should_descend(l: &Listing) -> (d: bool)
    ensures
        d == spec_descend(*l),
{
    matches!(l, Listing::OneSubdir)
}

} // verus!
