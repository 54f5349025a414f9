//! A directory tree as plain values, and the descent over it.
//!
//! A tree is a vector of nodes, each a file or a directory, a directory
//! naming its entries by index. Nodes are added leaves first, so every
//! entry of a directory lies strictly below the directory itself in the
//! vector; that ordering is the well-formedness invariant of [`Fs`] and is
//! what bounds the depth of the descent.

use vstd::prelude::*;
use crate::listing::{listing_of, spec_descend, lemma_settled_halts, Scanner, should_descend};

verus! {

/// One node of a directory tree.
#[derive(Debug)]
pub enum Node {
    /// An entry that is not a directory.
    File,
    /// A directory, with the indices of its entries in listing order.
    Dir { entries: Vec<usize> },
}

/// Why a resolution failed.
#[derive(Clone, Copy, Debug, PartialEq, Eq, Structural)]
pub enum ResolveError {
    /// The starting index names no node of the tree.
    NotFound,
    /// The starting index names a file: listing it fails rather than
    /// treating it as an empty directory.
    NotADirectory,
}

/// Every entry of every directory lies strictly below the directory itself:
/// trees are built leaves first, so no chain of entries can loop.
pub open spec fn fs_wf(nodes: Seq<Node>) -> bool {
    forall|i: int, j: int|
        0 <= i < nodes.len() && nodes[i] is Dir && 0 <= j < nodes[i]->entries@.len()
            ==> #[trigger] nodes[i]->entries@[j] < i
}

/// The is-directory flags of the named entries, in listing order.
pub open spec fn dir_flags(nodes: Seq<Node>, entries: Seq<usize>) -> Seq<bool> {
    entries.map_values(|e: usize| nodes[e as int] is Dir)
}

/// What resolving node `n` returns: an error when `n` names no node or
/// names a file, otherwise the first directory reached from `n` whose
/// listing is not a lone subdirectory.
pub open spec fn spec_resolve(nodes: Seq<Node>, n: int) -> Result<int, ResolveError>
    decreases n,
{
    if !(0 <= n < nodes.len()) {
        Err(ResolveError::NotFound)
    } else {
        match nodes[n] {
            Node::File => Err(ResolveError::NotADirectory),
            Node::Dir { entries } => {
                if spec_descend(listing_of(dir_flags(nodes, entries@))) && entries@[0] < n {
                    spec_resolve(nodes, entries@[0] as int)
                } else {
                    Ok(n)
                }
            },
        }
    }
}

/// A well-formed directory tree: nodes indexed by insertion order, entries
/// of a directory always added before the directory itself.
#[derive(Debug)]
pub struct Fs {
    nodes: Vec<Node>,
}

impl View for Fs {
    type V = Seq<Node>;

    closed spec fn view(&self) -> Seq<Node> {
        self.nodes@
    }
}

impl Fs {
    #[verifier::type_invariant]
    spec fn wf(self) -> bool {
        fs_wf(self.nodes@)
    }

    /// A tree with no nodes.
    pub fn new() -> (fs: Fs)
        ensures
            fs@ == Seq::<Node>::empty(),
    {
        Fs { nodes: Vec::new() }
    }

    /// The number of nodes in the tree.
    pub fn len(&self) -> (n: usize)
        ensures
            n == self@.len(),
    {
        self.nodes.len()
    }

    /// Add a file node and return its index.
    pub fn add_file(&mut self) -> (id: usize)
        ensures
            final(self)@ == old(self)@.push(Node::File),
            id == old(self)@.len(),
    {
        proof {
            use_type_invariant(&*self);
        }
        let mut nodes: Vec<Node> = Vec::new();
        std::mem::swap(&mut nodes, &mut self.nodes);
        let id = nodes.len();
        nodes.push(Node::File);
        proof {
            assert(fs_wf(nodes@));
        }
        std::mem::swap(&mut nodes, &mut self.nodes);
        id
    }

    /// Add a directory node whose entries are the given indices, in listing
    /// order, and return its index. Every entry must name a node already in
    /// the tree.
    pub fn add_dir(&mut self, entries: Vec<usize>) -> (id: usize)
        requires
            forall|j: int| 0 <= j < entries@.len() ==> entries@[j] < old(self)@.len(),
        ensures
            final(self)@ == old(self)@.push((Node::Dir { entries })),
            id == old(self)@.len(),
    {
        proof {
            use_type_invariant(&*self);
        }
        let mut nodes: Vec<Node> = Vec::new();
        std::mem::swap(&mut nodes, &mut self.nodes);
        let id = nodes.len();
        nodes.push(Node::Dir { entries });
        proof {
            assert(fs_wf(nodes@));
        }
        std::mem::swap(&mut nodes, &mut self.nodes);
        id
    }
}

/// Whether node `id` is a directory.
fn node_is_dir(fs: &Fs, id: usize) -> (d: bool)
    requires
        id < fs@.len(),
    ensures
        d == (fs@[id as int] is Dir),
{
    match &fs.nodes[id] {
        Node::Dir { .. } => true,
        Node::File => false,
    }
}

/// A directory with no entries resolves to itself.
pub proof fn lemma_empty_dir_resolves_to_itself(nodes: Seq<Node>, n: int)
    requires
        0 <= n < nodes.len(),
        nodes[n] matches Node::Dir { entries } && entries@.len() == 0,
    ensures
        spec_resolve(nodes, n) == Ok::<int, ResolveError>(n),
{
}

/// A directory whose only entry is not a directory resolves to itself.
pub proof fn lemma_lone_file_resolves_to_itself(nodes: Seq<Node>, n: int)
    requires
        0 <= n < nodes.len(),
        nodes[n] matches Node::Dir { entries } && entries@.len() == 1
            && 0 <= entries@[0] < nodes.len() && nodes[entries@[0] as int] is File,
    ensures
        spec_resolve(nodes, n) == Ok::<int, ResolveError>(n),
{
}

/// A directory with two or more entries, of any kind, resolves to itself.
pub proof fn lemma_many_entries_resolves_to_itself(nodes: Seq<Node>, n: int)
    requires
        0 <= n < nodes.len(),
        nodes[n] matches Node::Dir { entries } && entries@.len() >= 2,
    ensures
        spec_resolve(nodes, n) == Ok::<int, ResolveError>(n),
{
}

/// The halt transition: a directory whose listing is anything but a lone
/// subdirectory resolves to itself, whatever its entries are.
pub proof fn lemma_halts_without_lone_subdir(nodes: Seq<Node>, n: int)
    requires
        0 <= n < nodes.len(),
        nodes[n] is Dir,
        !spec_descend(listing_of(dir_flags(nodes, nodes[n]->entries@))),
    ensures
        spec_resolve(nodes, n) == Ok::<int, ResolveError>(n),
{
}

/// The descend transition: a directory whose only entry is itself a
/// directory resolves to whatever that entry resolves to.
pub proof fn lemma_descends_into_lone_subdir(nodes: Seq<Node>, n: int)
    requires
        fs_wf(nodes),
        0 <= n < nodes.len(),
        nodes[n] is Dir,
        nodes[n]->entries@.len() == 1,
        nodes[nodes[n]->entries@[0] as int] is Dir,
    ensures
        spec_resolve(nodes, n) == spec_resolve(nodes, nodes[n]->entries@[0] as int),
{
    let entries = nodes[n]->entries;
    assert(entries@[0] < n);
    assert(dir_flags(nodes, entries@) =~= seq![true]);
}

/// A chain of directories each holding exactly one subdirectory is followed
/// to its end: from the head of `a` holding only `b`, `b` holding only `c`,
/// `c` holding only `d`, and `d` empty, resolution reaches `d`.
pub proof fn lemma_chain_is_followed(nodes: Seq<Node>, a: usize, b: usize, c: usize, d: usize)
    requires
        fs_wf(nodes),
        a < nodes.len(),
        nodes[a as int] matches Node::Dir { entries } && entries@ == seq![b],
        nodes[b as int] matches Node::Dir { entries } && entries@ == seq![c],
        nodes[c as int] matches Node::Dir { entries } && entries@ == seq![d],
        nodes[d as int] matches Node::Dir { entries } && entries@.len() == 0,
    ensures
        spec_resolve(nodes, a as int) == Ok::<int, ResolveError>(d as int),
{
    assert(b < a && c < b && d < c) by {
        assert(nodes[a as int]->entries@[0] == b);
        assert(nodes[b as int]->entries@[0] == c);
        assert(nodes[c as int]->entries@[0] == d);
    }
    lemma_descends_into_lone_subdir(nodes, a as int);
    lemma_descends_into_lone_subdir(nodes, b as int);
    lemma_descends_into_lone_subdir(nodes, c as int);
    lemma_empty_dir_resolves_to_itself(nodes, d as int);
}

/// Resolution never fails past its first step, and the error says exactly
/// what went wrong there: NotFound for an index outside the tree,
/// NotADirectory for an index naming a file, and success for every index
/// naming a directory.
pub proof fn lemma_error_conditions(nodes: Seq<Node>, n: int)
    ensures
        spec_resolve(nodes, n) == Err::<int, ResolveError>(ResolveError::NotFound)
            <==> !(0 <= n < nodes.len()),
        spec_resolve(nodes, n) == Err::<int, ResolveError>(ResolveError::NotADirectory)
            <==> 0 <= n < nodes.len() && nodes[n] is File,
        spec_resolve(nodes, n) is Ok <==> 0 <= n < nodes.len() && nodes[n] is Dir,
    decreases n,
{
    if 0 <= n < nodes.len() && nodes[n] is Dir {
        let entries = nodes[n]->entries;
        if spec_descend(listing_of(dir_flags(nodes, entries@))) && entries@[0] < n {
            assert(nodes[entries@[0] as int] is Dir);
            lemma_error_conditions(nodes, entries@[0] as int);
        }
    }
}

/// A successful resolution returns a directory of the tree, and never one
/// above the starting node: the result is the start itself or was reached
/// from it by descending.
pub proof fn lemma_result_is_a_directory(nodes: Seq<Node>, n: int)
    requires
        spec_resolve(nodes, n) is Ok,
    ensures
        0 <= spec_resolve(nodes, n)->Ok_0 <= n,
        spec_resolve(nodes, n)->Ok_0 < nodes.len(),
        nodes[spec_resolve(nodes, n)->Ok_0] is Dir,
    decreases n,
{
    if 0 <= n < nodes.len() && nodes[n] is Dir {
        let entries = nodes[n]->entries;
        if spec_descend(listing_of(dir_flags(nodes, entries@))) && entries@[0] < n {
            lemma_result_is_a_directory(nodes, entries@[0] as int);
        }
    }
}

/// The resolved directory is already a fixed point of the descent:
/// resolving what a successful resolution returned yields it back
/// unchanged.
pub proof fn lemma_resolve_is_idempotent(nodes: Seq<Node>, n: int)
    requires
        spec_resolve(nodes, n) is Ok,
    ensures
        spec_resolve(nodes, spec_resolve(nodes, n)->Ok_0) == spec_resolve(nodes, n),
    decreases n,
{
    if 0 <= n < nodes.len() && nodes[n] is Dir {
        let entries = nodes[n]->entries;
        if spec_descend(listing_of(dir_flags(nodes, entries@))) && entries@[0] < n {
            lemma_resolve_is_idempotent(nodes, entries@[0] as int);
        }
    }
}

/// Resolve the first directory with real content reachable from `start`.
///
/// The descent keeps two locals: the current node, and the candidate its
/// listing put forward. Each pass scans the entries of the current node
/// lazily, stopping as soon as the outcome is settled; when the listing is
/// a lone subdirectory the candidate becomes current, otherwise the current
/// node is returned. A file or an index outside the tree fails, exactly as
/// listing it would.
pub fn resolve(fs: &Fs, start: usize) -> (r: Result<usize, ResolveError>)
    ensures
        (match r {
            Ok(m) => spec_resolve(fs@, start as int) == Ok::<int, ResolveError>(m as int),
            Err(e) => spec_resolve(fs@, start as int) == Err::<int, ResolveError>(e),
        }),
{
    proof {
        use_type_invariant(fs);
    }
    let mut current: usize = start;
    let mut candidate: Option<usize> = None;
    loop
        invariant
            fs_wf(fs@),
            candidate is None,
            spec_resolve(fs@, current as int) == spec_resolve(fs@, start as int),
        decreases current,
    {
        if current >= fs.nodes.len() {
            return Err(ResolveError::NotFound);
        }
        match &fs.nodes[current] {
            Node::File => {
                return Err(ResolveError::NotADirectory);
            },
            Node::Dir { entries } => {
                let ghost flags = dir_flags(fs@, entries@);
                proof {
                    assert forall|j: int| 0 <= j < entries@.len() implies entries@[j] < current by {
                        assert(fs@[current as int]->entries@[j] < current as int);
                    }
                }
                let mut scanner = Scanner::new();
                let mut i: usize = 0;
                while i < entries.len()
                    invariant
                        fs_wf(fs@),
                        current < fs@.len(),
                        fs@[current as int] == (Node::Dir { entries: *entries }),
                        forall|j: int| 0 <= j < entries@.len() ==> entries@[j] < current,
                        flags == dir_flags(fs@, entries@),
                        0 <= i <= entries@.len(),
                        scanner@ == flags.take(i as int),
                        i >= 1 && flags[0] ==> candidate == Some(entries@[0]),
                        i == 0 ==> candidate is None,
                    ensures
                        spec_descend(listing_of(scanner@)) == spec_descend(listing_of(flags)),
                        spec_descend(listing_of(flags)) ==> candidate == Some(entries@[0]),
                    decreases entries@.len() - i,
                {
                    let child = entries[i];
                    let is_dir = node_is_dir(fs, child);
                    let stop = scanner.feed(is_dir);
                    if i == 0 && is_dir {
                        candidate = Some(child);
                    }
                    proof {
                        assert(flags.take(i as int).push(flags[i as int])
                            =~= flags.take(i as int + 1));
                    }
                    i = i + 1;
                    if stop {
                        proof {
                            lemma_settled_halts(flags, i as int);
                        }
                        break;
                    }
                }
                let l = scanner.listing();
                if should_descend(&l) {
                    match candidate {
                        Some(c) => {
                            current = c;
                            candidate = None;
                        },
                        None => {
                            // a lone-subdirectory listing always puts a
                            // candidate forward
                            return unreached();
                        },
                    }
                } else {
                    return Ok(current);
                }
            },
        }
    }
}

} // verus!
