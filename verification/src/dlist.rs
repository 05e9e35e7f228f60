//! A doubly linked list whose nodes live in a slab and are addressed by tokens.
//!
//! Every node is stored in a [`slab::Slab`]; the links between nodes are slab keys wrapped in
//! [`SlabToken`]. The list is modelled by the sequence of its items from front to back
//! (its view) and by the sequence of the slab keys that hold them ([`SlabLinkedList::keys`]).

use slab::Slab;
use std::num::NonZeroUsize;
use vstd::prelude::*;

verus! {

/// The bit that tags every packed token, so that no token is the zero word.
pub const MASK: usize = 1usize << (usize::BITS - 1);

/// The address of a node: a slab key with the tag bit set.
///
/// The struct hides a `std::num::NonZeroUsize`, which gives `Option<SlabToken>` the size of a
/// `SlabToken`. Verus is told nothing of the field; [`token_bits`] names the word it holds.
#[verifier::external_body]
#[derive(Debug)]
pub struct SlabToken(NonZeroUsize);

/// The word that a token holds, as `NonZeroUsize::get` returns it.
pub uninterp spec fn token_bits(token: SlabToken) -> usize;

/// `NonZeroUsize::new` on a non-zero word: the token holds exactly that word.
#[verifier::external_body]
fn pack(bits: usize) -> (token: SlabToken)
    requires
        bits != 0,
    ensures
        token_bits(token) == bits,
{
    SlabToken(NonZeroUsize::new(bits).unwrap())
}

/// `NonZeroUsize::get`: the word that the token holds, which is never zero.
#[verifier::external_body]
fn unpack(token: &SlabToken) -> (bits: usize)
    ensures
        bits == token_bits(*token),
        bits != 0,
{
    token.0.get()
}

impl Clone for SlabToken {
    /// Copies the hidden `NonZeroUsize`, which is `Copy`.
    #[verifier::external_body]
    fn clone(&self) -> (token: Self)
        ensures
            token == *self,
    {
        SlabToken(self.0)
    }
}

impl Copy for SlabToken {

}

impl SlabToken {
    /// The slab key that the token stands for: its word without the tag bit.
    pub closed spec fn raw(self) -> usize {
        token_bits(self) & !MASK
    }

    /// The tag bit is never part of a key.
    pub proof fn lemma_raw_untagged(self)
        ensures
            self.raw() & MASK == 0,
    {
        let bits = token_bits(self);
        assert((bits & !MASK) & MASK == 0) by (bit_vector);
    }

    /// Packs a slab key into a token. The key must leave the tag bit free.
    pub fn from_raw(raw: usize) -> (token: SlabToken)
        requires
            raw & MASK == 0,
        ensures
            token.raw() == raw,
    {
        assert((raw | MASK) != 0 && (raw | MASK) & !MASK == raw) by (bit_vector)
            requires
                raw & MASK == 0,
        ;
        pack(raw | MASK)
    }

    /// The slab key that the token stands for.
    pub fn to_raw(&self) -> (raw: usize)
        ensures
            raw == self.raw(),
            raw & MASK == 0,
    {
        proof {
            self.lemma_raw_untagged();
        }
        unpack(self) & !MASK
    }
}

impl PartialEq for SlabToken {
    /// Two tokens are equal if they stand for the same slab key.
    fn eq(&self, other: &Self) -> (same: bool) {
        self.to_raw() == other.to_raw()
    }
}

impl Eq for SlabToken {

}

impl vstd::std_specs::cmp::PartialEqSpecImpl for SlabToken {
    open spec fn obeys_eq_spec() -> bool {
        true
    }

    open spec fn eq_spec(&self, other: &Self) -> bool {
        self.raw() == other.raw()
    }
}

/// The slab key behind an optional link.
pub open spec fn raw_of(link: Option<SlabToken>) -> Option<usize> {
    match link {
        Some(token) => Some(token.raw()),
        None => None,
    }
}

/// One node of the list: its item and the links to its neighbours.
pub struct Node {
    prev: Option<SlabToken>,
    next: Option<SlabToken>,
    data: usize,
}

impl Node {
    /// A node that holds the item and is linked to nothing.
    fn new(data: usize) -> (node: Self)
        ensures
            node.prev.is_none(),
            node.next.is_none(),
            node.data == data,
    {
        Self { prev: None, next: None, data }
    }
}

/// `slab::Slab`, as a type of which Verus knows nothing but what [`slab_entries`] names.
#[verifier::external_type_specification]
#[verifier::external_body]
#[verifier::reject_recursive_types(T)]
pub struct ExSlab<T>(Slab<T>);

/// The occupied slots of a slab of nodes: each key with the node stored under it.
pub uninterp spec fn slab_entries(slab: Slab<Node>) -> Map<usize, Node>;

/// `Slab::with_capacity`: a slab without any occupied slot.
///
/// The allocation behind it fails above `isize::MAX` bytes; a slot takes at most 64 bytes.
#[verifier::external_body]
fn slab_with_capacity(capacity: usize) -> (slab: Slab<Node>)
    requires
        capacity <= usize::MAX / 128,
    ensures
        slab_entries(slab).dom() == Set::<usize>::empty(),
{
    Slab::with_capacity(capacity)
}

/// `Slab::insert`: stores the node under a key that was vacant and returns the key; every
/// other slot is left as it was. The slab's storage never exceeds `isize::MAX` bytes, so the
/// key leaves the highest bit free.
#[verifier::external_body]
fn slab_insert(slab: &mut Slab<Node>, node: Node) -> (key: usize)
    ensures
        !slab_entries(*old(slab)).dom().contains(key),
        slab_entries(*final(slab)) == slab_entries(*old(slab)).insert(key, node),
        key & MASK == 0,
{
    slab.insert(node)
}

/// `Slab::get`: the node stored under the key, if the slot is occupied.
#[verifier::external_body]
fn slab_get(slab: &Slab<Node>, key: usize) -> (node: Option<&Node>)
    ensures
        match node {
            Some(node) => slab_entries(*slab).dom().contains(key) && *node == slab_entries(
                *slab,
            )[key],
            None => !slab_entries(*slab).dom().contains(key),
        },
{
    slab.get(key)
}

/// `Slab::get_mut`: a mutable borrow of the node stored under the key, if the slot is
/// occupied. Whatever is written through it is what the slot holds afterwards; no other slot
/// changes.
#[verifier::external_body]
fn slab_get_mut(slab: &mut Slab<Node>, key: usize) -> (node: Option<&mut Node>)
    ensures
        match node {
            Some(node) => {
                &&& slab_entries(*old(slab)).dom().contains(key)
                &&& *node == slab_entries(*old(slab))[key]
                &&& slab_entries(*final(slab)) == slab_entries(*old(slab)).insert(
                    key,
                    *final(node),
                )
            },
            None => {
                &&& !slab_entries(*old(slab)).dom().contains(key)
                &&& slab_entries(*final(slab)) == slab_entries(*old(slab))
            },
        },
{
    slab.get_mut(key)
}

/// `Slab::remove`: takes the node out of its slot and returns it; every other slot is left as
/// it was. The slot must be occupied.
#[verifier::external_body]
fn slab_remove(slab: &mut Slab<Node>, key: usize) -> (node: Node)
    requires
        slab_entries(*old(slab)).dom().contains(key),
    ensures
        node == slab_entries(*old(slab))[key],
        slab_entries(*final(slab)) == slab_entries(*old(slab)).remove(key),
{
    slab.remove(key)
}

/// The key before position `i`, if there is one.
pub open spec fn key_before(keys: Seq<usize>, i: int) -> Option<usize> {
    if i == 0 {
        None
    } else {
        Some(keys[i - 1])
    }
}

/// The key after position `i`, if there is one.
pub open spec fn key_after(keys: Seq<usize>, i: int) -> Option<usize> {
    if i + 1 == keys.len() {
        None
    } else {
        Some(keys[i + 1])
    }
}

/// The node at position `i` is stored under its key and linked to both neighbours.
spec fn node_linked(entries: Map<usize, Node>, keys: Seq<usize>, i: int) -> bool {
    &&& entries.dom().contains(keys[i])
    &&& keys[i] & MASK == 0
    &&& raw_of(entries[keys[i]].prev) == key_before(keys, i)
    &&& raw_of(entries[keys[i]].next) == key_after(keys, i)
}

/// The slots are exactly the nodes under `keys`, chained in that order.
spec fn chained(entries: Map<usize, Node>, keys: Seq<usize>) -> bool {
    &&& keys.no_duplicates()
    &&& forall|key: usize| entries.dom().contains(key) ==> keys.contains(key)
    &&& forall|i: int| 0 <= i < keys.len() ==> #[trigger] node_linked(entries, keys, i)
}

/// A sequence of distinct keys below a bound is no longer than the bound.
pub proof fn lemma_distinct_below(keys: Seq<usize>, bound: nat)
    requires
        keys.no_duplicates(),
        forall|i: int| 0 <= i < keys.len() ==> keys[i] < bound,
    ensures
        keys.len() <= bound,
    decreases bound,
{
    if keys.len() > 0 {
        if bound == 0 {
            assert(keys[0] < bound);
        } else {
            let top = (bound - 1) as usize;
            if keys.contains(top) {
                let j = keys.index_of(top);
                let rest = keys.remove(j);
                assert forall|i: int| 0 <= i < rest.len() implies rest[i] < bound - 1 by {
                    if i < j {
                        assert(rest[i] == keys[i]);
                    } else {
                        assert(rest[i] == keys[i + 1]);
                    }
                }
                assert(rest.no_duplicates());
                lemma_distinct_below(rest, (bound - 1) as nat);
            } else {
                assert forall|i: int| 0 <= i < keys.len() implies keys[i] < bound - 1 by {
                    assert(keys.contains(keys[i]));
                }
                lemma_distinct_below(keys, (bound - 1) as nat);
            }
        }
    }
}

/// A doubly linked list of `usize` items over a slab of nodes.
pub struct SlabLinkedList {
    head: Option<SlabToken>,
    tail: Option<SlabToken>,
    slab: Slab<Node>,
    len: usize,
    order: Ghost<Seq<usize>>,
}

impl View for SlabLinkedList {
    type V = Seq<usize>;

    /// The items of the list, front to back.
    closed spec fn view(&self) -> Seq<usize> {
        Seq::new(self.order@.len(), |i: int| slab_entries(self.slab)[self.order@[i]].data)
    }
}

impl SlabLinkedList {
    /// The slab keys of the nodes, front to back: `keys()[i]` holds the item `self@[i]`.
    pub closed spec fn keys(&self) -> Seq<usize> {
        self.order@
    }

    /// The list's invariant: the slab holds exactly the nodes of the list, each linked to its
    /// neighbours, and head, tail and length agree with them.
    pub closed spec fn wf(&self) -> bool {
        &&& chained(slab_entries(self.slab), self.order@)
        &&& self.len == self.order@.len()
        &&& raw_of(self.head) == (if self.order@.len() == 0 {
            None
        } else {
            Some(self.order@[0])
        })
        &&& raw_of(self.tail) == (if self.order@.len() == 0 {
            None
        } else {
            Some(self.order@[self.order@.len() - 1])
        })
    }

    /// A well-formed list has one key for each item, no key twice, and no key with the tag bit.
    pub proof fn lemma_keys(&self)
        requires
            self.wf(),
        ensures
            self.keys().len() == self@.len(),
            self.keys().no_duplicates(),
            forall|i: int| 0 <= i < self.keys().len() ==> #[trigger] self.keys()[i] & MASK == 0,
    {
        assert forall|i: int| 0 <= i < self.keys().len() implies #[trigger] self.keys()[i] & MASK
            == 0 by {
            assert(node_linked(slab_entries(self.slab), self.order@, i));
        }
    }

    /// An empty list.
    pub fn new() -> (list: Self)
        ensures
            list.wf(),
            list@ == Seq::<usize>::empty(),
            list.keys() == Seq::<usize>::empty(),
    {
        Self::with_capacity(0)
    }

    /// An empty list with room for `capacity` nodes.
    pub fn with_capacity(capacity: usize) -> (list: Self)
        requires
            capacity <= usize::MAX / 128,
        ensures
            list.wf(),
            list@ == Seq::<usize>::empty(),
            list.keys() == Seq::<usize>::empty(),
    {
        Self {
            head: None,
            tail: None,
            slab: slab_with_capacity(capacity),
            len: 0,
            order: Ghost(Seq::empty()),
        }
    }

    /// Get the length of the double linked list.
    pub fn len(&self) -> (len: usize)
        requires
            self.wf(),
        ensures
            len == self@.len(),
    {
        self.len
    }

    /// Check if the double linked list is empty.
    pub fn is_empty(&self) -> (empty: bool)
        requires
            self.wf(),
        ensures
            empty <==> self@.len() == 0,
    {
        self.len() == 0
    }

    /// The node under a token that the slab holds.
    fn get_node(&self, token: SlabToken) -> (node: &Node)
        requires
            slab_entries(self.slab).dom().contains(token.raw()),
        ensures
            *node == slab_entries(self.slab)[token.raw()],
    {
        match slab_get(&self.slab, token.to_raw()) {
            Some(node) => node,
            None => vstd::pervasive::unreached(),
        }
    }

    /// Get the reference of the first item of the double linked list.
    pub fn front(&self) -> (item: Option<&usize>)
        requires
            self.wf(),
        ensures
            match item {
                Some(item) => self@.len() > 0 && *item == self@[0],
                None => self@.len() == 0,
            },
    {
        match self.head {
            Some(token) => {
                assert(node_linked(slab_entries(self.slab), self.order@, 0));
                Some(&self.get_node(token).data)
            },
            None => None,
        }
    }

    /// Get the reference of the last item of the double linked list.
    pub fn back(&self) -> (item: Option<&usize>)
        requires
            self.wf(),
        ensures
            match item {
                Some(item) => self@.len() > 0 && *item == self@[self@.len() - 1],
                None => self@.len() == 0,
            },
    {
        match self.tail {
            Some(token) => {
                assert(node_linked(slab_entries(self.slab), self.order@, self.order@.len() - 1));
                Some(&self.get_node(token).data)
            },
            None => None,
        }
    }
}

impl SlabLinkedList {
    /// The link is the null position or the token of a node of this list.
    pub open spec fn holds(&self, link: Option<SlabToken>) -> bool {
        match link {
            Some(token) => self.keys().contains(token.raw()),
            None => true,
        }
    }

    /// The position that a link stands for: the index of its node, or the length of the list
    /// for the null position between tail and head.
    pub open spec fn position(&self, link: Option<SlabToken>) -> int {
        match link {
            Some(token) => self.keys().index_of(token.raw()),
            None => self.keys().len() as int,
        }
    }

    /// A link that the list holds stands for a position from 0 to the length, and a token is
    /// found at its position.
    pub proof fn lemma_position(&self, link: Option<SlabToken>)
        requires
            self.wf(),
            self.holds(link),
        ensures
            0 <= self.position(link) <= self@.len(),
            link matches Some(token) ==> self.position(link) < self@.len()
                && self.keys()[self.position(
                link,
            )] == token.raw(),
            link is None ==> self.position(link) == self@.len(),
    {
    }

    /// The token of the first node, if there is one.
    pub fn front_token(&self) -> (token: Option<SlabToken>)
        requires
            self.wf(),
        ensures
            raw_of(token) == (if self@.len() == 0 {
                None
            } else {
                Some(self.keys()[0])
            }),
    {
        self.head
    }

    /// The token of the last node, if there is one.
    pub fn back_token(&self) -> (token: Option<SlabToken>)
        requires
            self.wf(),
        ensures
            raw_of(token) == (if self@.len() == 0 {
                None
            } else {
                Some(self.keys()[self@.len() - 1])
            }),
    {
        self.tail
    }

    /// Get the item reference iterator of the double linked list.
    pub fn iter(&self) -> (iter: SlabLinkedListIter<'_>)
        requires
            self.wf(),
        ensures
            iter.wf(),
            iter.list() == *self,
            iter.index() == self@.len(),
    {
        SlabLinkedListIter { token: None, list: self }
    }

    /// Create immutable iterator directly on slab token. The token must belong to this list.
    pub fn iter_from_raw(&self, token: SlabToken) -> (iter: SlabLinkedListIter<'_>)
        requires
            self.wf(),
            self.keys().contains(token.raw()),
        ensures
            iter.wf(),
            iter.list() == *self,
            iter.index() == self.keys().index_of(token.raw()),
    {
        SlabLinkedListIter { token: Some(token), list: self }
    }
}

/// Item reference iterator of the double linked list: a position in a borrowed list.
pub struct SlabLinkedListIter<'a> {
    token: Option<SlabToken>,
    list: &'a SlabLinkedList,
}

impl<'a> SlabLinkedListIter<'a> {
    /// The list that the iterator walks.
    pub closed spec fn list(&self) -> SlabLinkedList {
        *self.list
    }

    /// The list is well-formed and the iterator stands at one of its positions.
    pub closed spec fn wf(&self) -> bool {
        self.list.wf() && self.list.holds(self.token)
    }

    /// The position of the iterator: an index of the list, or its length for the null position.
    pub closed spec fn index(&self) -> int {
        self.list.position(self.token)
    }

    /// Check if the iter is in a valid position.
    pub fn is_valid(&self) -> (valid: bool)
        requires
            self.wf(),
        ensures
            valid <==> self.index() < self.list()@.len(),
    {
        proof {
            self.list.lemma_position(self.token);
        }
        self.token.is_some()
    }

    /// Get the item of the current position.
    pub fn data(&self) -> (item: Option<&'a usize>)
        requires
            self.wf(),
        ensures
            match item {
                Some(item) => self.index() < self.list()@.len()
                    && *item == self.list()@[self.index()],
                None => self.index() == self.list()@.len(),
            },
    {
        proof {
            self.list.lemma_position(self.token);
        }
        match self.token {
            Some(token) => {
                assert(node_linked(
                    slab_entries(self.list.slab),
                    self.list.order@,
                    self.list.position(self.token),
                ));
                Some(&self.list.get_node(token).data)
            },
            None => None,
        }
    }

    /// Move to next.
    ///
    /// If iter is on tail, move to null.
    /// If iter is on null, move to head.
    pub fn next(&mut self)
        requires
            old(self).wf(),
        ensures
            final(self).wf(),
            final(self).list() == old(self).list(),
            final(self).index() == step_forward(old(self).index(), old(self).list()@.len()),
    {
        proof {
            self.list.lemma_position(self.token);
        }
        let ghost i = self.list.position(self.token);
        match self.token {
            Some(token) => {
                assert(node_linked(slab_entries(self.list.slab), self.list.order@, i));
                self.token = self.list.get_node(token).next;
            },
            None => self.token = self.list.head,
        }
    }

    /// Move to prev.
    ///
    /// If iter is on head, move to null.
    /// If iter is on null, move to tail.
    pub fn prev(&mut self)
        requires
            old(self).wf(),
        ensures
            final(self).wf(),
            final(self).list() == old(self).list(),
            final(self).index() == step_backward(old(self).index(), old(self).list()@.len()),
    {
        proof {
            self.list.lemma_position(self.token);
        }
        let ghost i = self.list.position(self.token);
        match self.token {
            Some(token) => {
                assert(node_linked(slab_entries(self.list.slab), self.list.order@, i));
                self.token = self.list.get_node(token).prev;
            },
            None => self.token = self.list.tail,
        }
    }

    /// Move to head.
    pub fn front(&mut self)
        requires
            old(self).wf(),
        ensures
            final(self).wf(),
            final(self).list() == old(self).list(),
            final(self).index() == 0,
    {
        self.token = self.list.head;
    }

    /// Move to tail.
    pub fn back(&mut self)
        requires
            old(self).wf(),
        ensures
            final(self).wf(),
            final(self).list() == old(self).list(),
            final(self).index() == last_index(old(self).list()@.len()),
    {
        self.token = self.list.tail;
    }

    /// Check if the iterator is in the first position of the double linked list.
    pub fn is_front(&self) -> (front: bool)
        requires
            self.wf(),
        ensures
            front <==> self.index() == 0,
    {
        proof {
            self.list.lemma_position(self.token);
        }
        self.token == self.list.head
    }

    /// Check if the iterator is in the last position of the double linked list.
    pub fn is_back(&self) -> (back: bool)
        requires
            self.wf(),
        ensures
            back <==> self.index() == last_index(self.list()@.len()),
    {
        proof {
            self.list.lemma_position(self.token);
        }
        self.token == self.list.tail
    }
}

/// The position after `index` in a list of `len` items: the null position `len` follows the
/// last item and is followed by the first.
pub open spec fn step_forward(index: int, len: nat) -> int {
    if index >= len {
        0
    } else {
        index + 1
    }
}

/// The position before `index` in a list of `len` items: the null position `len` comes before
/// the first item and after the last.
pub open spec fn step_backward(index: int, len: nat) -> int {
    if index <= 0 {
        len as int
    } else {
        index - 1
    }
}

/// The position of the last item, which is the null position 0 in an empty list.
pub open spec fn last_index(len: nat) -> int {
    if len == 0 {
        0
    } else {
        len - 1
    }
}

/// The slots after the node under `token` got the links `prev` and `next`, the node before it
/// got `token` as its next link, and the node after it got `token` as its prev link.
spec fn spliced(
    entries: Map<usize, Node>,
    token: SlabToken,
    prev: Option<SlabToken>,
    next: Option<SlabToken>,
) -> Map<usize, Node> {
    let first = match prev {
        Some(prev) => entries.insert(
            prev.raw(),
            Node { next: Some(token), ..entries[prev.raw()] },
        ),
        None => entries,
    };
    let second = match next {
        Some(next) => first.insert(next.raw(), Node { prev: Some(token), ..first[next.raw()] }),
        None => first,
    };
    second.insert(token.raw(), Node { prev, next, ..second[token.raw()] })
}

/// Linking a fresh node between two neighbours of a chain gives the chain with the node's key
/// inserted at that place.
proof fn lemma_spliced_chained(
    entries: Map<usize, Node>,
    keys: Seq<usize>,
    at: int,
    token: SlabToken,
    data: usize,
    prev: Option<SlabToken>,
    next: Option<SlabToken>,
)
    requires
        chained(entries, keys),
        0 <= at <= keys.len(),
        !keys.contains(token.raw()),
        token.raw() & MASK == 0,
        raw_of(prev) == key_before(keys, at),
        raw_of(next) == (if at == keys.len() {
            None
        } else {
            Some(keys[at])
        }),
    ensures
        chained(
            spliced(entries.insert(token.raw(), Node { prev: None, next: None, data }), token, prev, next),
            keys.insert(at, token.raw()),
        ),
        forall|i: int|
            0 <= i < keys.len() ==> spliced(
                entries.insert(token.raw(), Node { prev: None, next: None, data }),
                token,
                prev,
                next,
            )[#[trigger] keys[i]].data == entries[keys[i]].data,
        spliced(
            entries.insert(token.raw(), Node { prev: None, next: None, data }),
            token,
            prev,
            next,
        )[token.raw()].data == data,
{
    let start = entries.insert(token.raw(), Node { prev: None, next: None, data });
    let after = spliced(start, token, prev, next);
    let grown = keys.insert(at, token.raw());
    assert forall|i: int| 0 <= i < keys.len() implies keys[i] != token.raw() by {
        assert(keys.contains(keys[i]));
    }
    assert forall|i: int| 0 <= i < keys.len() implies entries.dom().contains(#[trigger] keys[i])
        && after[keys[i]].data == entries[keys[i]].data by {
        assert(node_linked(entries, keys, i));
    }
    assert(grown.no_duplicates()) by {
        assert forall|i: int, j: int| 0 <= i < grown.len() && 0 <= j < grown.len()
            && i != j implies grown[i]
            != grown[j] by {
            let a = if i < at { i } else { i - 1 };
            let b = if j < at { j } else { j - 1 };
            if i != at && j != at {
                assert(grown[i] == keys[a] && grown[j] == keys[b]);
            } else if i == at {
                assert(grown[j] == keys[b]);
            } else {
                assert(grown[i] == keys[a]);
            }
        }
    }
    assert forall|key: usize| after.dom().contains(key) implies grown.contains(key) by {
        if key == token.raw() {
            assert(grown[at] == key);
        } else {
            assert(entries.dom().contains(key));
            let i = keys.index_of(key);
            assert(keys.contains(key));
            if i < at {
                assert(grown[i] == key);
            } else {
                assert(grown[i + 1] == key);
            }
        }
    }
    assert forall|i: int| 0 <= i < grown.len() implies #[trigger] node_linked(after, grown, i) by {
        if i < at {
            assert(node_linked(entries, keys, i));
            assert(grown[i] == keys[i]);
            if i > 0 {
                assert(grown[i - 1] == keys[i - 1]);
            }
            if i + 1 < at {
                assert(grown[i + 1] == keys[i + 1]);
            }
        } else if i == at {
            if at > 0 {
                assert(grown[at - 1] == keys[at - 1]);
            }
            if at < keys.len() {
                assert(grown[at + 1] == keys[at]);
            }
        } else {
            assert(node_linked(entries, keys, i - 1));
            assert(grown[i] == keys[i - 1]);
            if i - 1 > at {
                assert(grown[i - 1] == keys[i - 2]);
            }
            if i + 1 < grown.len() {
                assert(grown[i + 1] == keys[i]);
            }
        }
    }
}

/// Taking the node at `at` out of a chain and linking its neighbours to each other gives the
/// chain without that node's key.
proof fn lemma_unlinked_chained(entries: Map<usize, Node>, after: Map<usize, Node>, keys: Seq<usize>, at: int)
    requires
        chained(entries, keys),
        0 <= at < keys.len(),
        after.dom() == entries.dom().remove(keys[at]),
        forall|i: int|
            0 <= i < keys.len() && i != at ==> {
                &&& (#[trigger] after[keys[i]]).data == entries[keys[i]].data
                &&& raw_of(after[keys[i]].prev) == (if i == at + 1 {
                    key_before(keys, at)
                } else {
                    raw_of(entries[keys[i]].prev)
                })
                &&& raw_of(after[keys[i]].next) == (if i == at - 1 {
                    key_after(keys, at)
                } else {
                    raw_of(entries[keys[i]].next)
                })
            },
    ensures
        chained(after, keys.remove(at)),
{
    let rest = keys.remove(at);
    assert(rest.no_duplicates());
    assert forall|key: usize| after.dom().contains(key) implies rest.contains(key) by {
        assert(keys.contains(key));
        let i = keys.index_of(key);
        if i < at {
            assert(rest[i] == key);
        } else {
            assert(rest[i - 1] == key);
        }
    }
    assert forall|i: int| 0 <= i < rest.len() implies #[trigger] node_linked(after, rest, i) by {
        let j = if i < at { i } else { i + 1 };
        assert(rest[i] == keys[j]);
        assert(node_linked(entries, keys, j));
        assert(after[keys[j]].data == entries[keys[j]].data);
        if i > 0 {
            assert(rest[i - 1] == keys[if i - 1 < at { i - 1 } else { i }]);
        }
        if i + 1 < rest.len() {
            assert(rest[i + 1] == keys[if i + 1 < at { i + 1 } else { i + 2 }]);
        }
    }
}

impl SlabLinkedList {
    /// Stores a node in the slab, linked to nothing yet, and returns its token.
    fn insert_node(&mut self, node: Node) -> (token: SlabToken)
        ensures
            !slab_entries(old(self).slab).dom().contains(token.raw()),
            slab_entries(final(self).slab) == slab_entries(old(self).slab).insert(
                token.raw(),
                node,
            ),
            token.raw() & MASK == 0,
            final(self).head == old(self).head,
            final(self).tail == old(self).tail,
            final(self).len == old(self).len,
            final(self).order == old(self).order,
    {
        let raw = slab_insert(&mut self.slab, node);
        SlabToken::from_raw(raw)
    }

    /// A mutable borrow of the node under a token that the slab holds.
    fn get_node_mut(&mut self, token: SlabToken) -> (node: &mut Node)
        requires
            slab_entries(old(self).slab).dom().contains(token.raw()),
        ensures
            *node == slab_entries(old(self).slab)[token.raw()],
            slab_entries(final(self).slab) == slab_entries(old(self).slab).insert(
                token.raw(),
                *final(node),
            ),
            final(self).head == old(self).head,
            final(self).tail == old(self).tail,
            final(self).len == old(self).len,
            final(self).order == old(self).order,
    {
        match slab_get_mut(&mut self.slab, token.to_raw()) {
            Some(node) => node,
            None => vstd::pervasive::unreached(),
        }
    }

    /// Takes the node under a token out of the slab, whatever links to it.
    fn remove_node(&mut self, token: SlabToken) -> (node: Node)
        requires
            slab_entries(old(self).slab).dom().contains(token.raw()),
        ensures
            node == slab_entries(old(self).slab)[token.raw()],
            slab_entries(final(self).slab) == slab_entries(old(self).slab).remove(token.raw()),
            final(self).head == old(self).head,
            final(self).tail == old(self).tail,
            final(self).len == old(self).len,
            final(self).order == old(self).order,
    {
        slab_remove(&mut self.slab, token.to_raw())
    }

    /// Get the item mutable reference iterator of the double linked list.
    pub fn iter_mut(&mut self) -> (iter: SlabLinkedListIterMut<'_>)
        requires
            old(self).wf(),
        ensures
            *iter.list == *old(self),
            *final(iter.list) == *final(self),
            iter.token is None,
    {
        SlabLinkedListIterMut { token: None, list: self }
    }

    /// Create mutable iterator directly on slab token. The token must belong to this list.
    pub fn iter_mut_from_raw(&mut self, token: SlabToken) -> (iter: SlabLinkedListIterMut<'_>)
        requires
            old(self).wf(),
            old(self).keys().contains(token.raw()),
        ensures
            *iter.list == *old(self),
            *final(iter.list) == *final(self),
            iter.token == Some(token),
    {
        SlabLinkedListIterMut { token: Some(token), list: self }
    }
}

/// Item mutable reference iterator of the double linked list: a position in a list that is
/// borrowed mutably, at which items can be inserted and removed.
pub struct SlabLinkedListIterMut<'a> {
    pub token: Option<SlabToken>,
    pub list: &'a mut SlabLinkedList,
}

impl<'a> SlabLinkedListIterMut<'a> {
    /// The list is well-formed and the iterator stands at one of its positions.
    pub open spec fn wf(&self) -> bool {
        self.list.wf() && self.list.holds(self.token)
    }

    /// The position of the iterator: an index of the list, or its length for the null position.
    pub open spec fn index(&self) -> int {
        self.list.position(self.token)
    }

    /// The items of the list that the iterator walks, front to back.
    pub open spec fn items(&self) -> Seq<usize> {
        self.list@
    }

    /// Links the node under `token` between two neighbours, or to the null position where
    /// a neighbour is missing.
    fn link_between(&mut self, token: SlabToken, prev: Option<SlabToken>, next: Option<SlabToken>)
        requires
            slab_entries(old(self).list.slab).dom().contains(token.raw()),
            prev matches Some(prev) ==>
                slab_entries(old(self).list.slab).dom().contains(prev.raw()),
            next matches Some(next) ==>
                slab_entries(old(self).list.slab).dom().contains(next.raw()),
        ensures
            slab_entries(final(self).list.slab) == spliced(
                slab_entries(old(self).list.slab),
                token,
                prev,
                next,
            ),
            final(self).list.head == old(self).list.head,
            final(self).list.tail == old(self).list.tail,
            final(self).list.len == old(self).list.len,
            final(self).list.order == old(self).list.order,
            final(self).token == old(self).token,
            *final(final(self).list) == *final(old(self).list),
    {
        if let Some(prev) = prev {
            let node = self.list.get_node_mut(prev);
            node.next = Some(token);
        }
        if let Some(next) = next {
            let node = self.list.get_node_mut(next);
            node.prev = Some(token);
        }
        let node = self.list.get_node_mut(token);
        node.prev = prev;
        node.next = next;
    }
}

impl<'a> SlabLinkedListIterMut<'a> {
    /// Check if the iter is in a valid position.
    pub fn is_valid(&self) -> (valid: bool)
        requires
            self.wf(),
        ensures
            valid <==> self.index() < self.items().len(),
    {
        proof {
            self.list.lemma_position(self.token);
        }
        self.token.is_some()
    }

    /// Get the item reference of the current position.
    pub fn data(&self) -> (item: Option<&usize>)
        requires
            self.wf(),
        ensures
            match item {
                Some(item) => self.index() < self.items().len()
                    && *item == self.items()[self.index()],
                None => self.index() == self.items().len(),
            },
    {
        proof {
            self.list.lemma_position(self.token);
        }
        match self.token {
            Some(token) => {
                assert(node_linked(
                    slab_entries(self.list.slab),
                    self.list.order@,
                    self.list.position(self.token),
                ));
                Some(&self.list.get_node(token).data)
            },
            None => None,
        }
    }

    /// Move to next.
    ///
    /// If iter is on tail, move to null.
    /// If iter is on null, move to head.
    pub fn next(&mut self)
        requires
            old(self).wf(),
        ensures
            final(self).wf(),
            *final(self).list == *old(self).list,
            *final(final(self).list) == *final(old(self).list),
            final(self).index() == step_forward(old(self).index(), old(self).list@.len()),
    {
        proof {
            self.list.lemma_position(self.token);
        }
        let ghost i = self.list.position(self.token);
        match self.token {
            Some(token) => {
                assert(node_linked(slab_entries(self.list.slab), self.list.order@, i));
                self.token = self.list.get_node(token).next;
            },
            None => self.token = self.list.head,
        }
    }

    /// Move to prev.
    ///
    /// If iter is on head, move to null.
    /// If iter is on null, move to tail.
    pub fn prev(&mut self)
        requires
            old(self).wf(),
        ensures
            final(self).wf(),
            *final(self).list == *old(self).list,
            *final(final(self).list) == *final(old(self).list),
            final(self).index() == step_backward(old(self).index(), old(self).list@.len()),
    {
        proof {
            self.list.lemma_position(self.token);
        }
        let ghost i = self.list.position(self.token);
        match self.token {
            Some(token) => {
                assert(node_linked(slab_entries(self.list.slab), self.list.order@, i));
                self.token = self.list.get_node(token).prev;
            },
            None => self.token = self.list.tail,
        }
    }

    /// Move to front.
    pub fn front(&mut self)
        requires
            old(self).wf(),
        ensures
            final(self).wf(),
            *final(self).list == *old(self).list,
            *final(final(self).list) == *final(old(self).list),
            final(self).index() == 0,
    {
        self.token = self.list.head;
    }

    /// Move to back.
    pub fn back(&mut self)
        requires
            old(self).wf(),
        ensures
            final(self).wf(),
            *final(self).list == *old(self).list,
            *final(final(self).list) == *final(old(self).list),
            final(self).index() == last_index(old(self).list@.len()),
    {
        self.token = self.list.tail;
    }

    /// Check if the iterator is in the first position of the double linked list.
    pub fn is_front(&self) -> (front: bool)
        requires
            self.wf(),
        ensures
            front <==> self.index() == 0,
    {
        proof {
            self.list.lemma_position(self.token);
        }
        self.token == self.list.head
    }

    /// Check if the iterator is in the last position of the double linked list.
    pub fn is_back(&self) -> (back: bool)
        requires
            self.wf(),
        ensures
            back <==> self.index() == last_index(self.items().len()),
    {
        proof {
            self.list.lemma_position(self.token);
        }
        self.token == self.list.tail
    }

    /// Removes the current item from the list and moves to the next one. At the null position
    /// nothing is removed.
    pub fn remove(&mut self) -> (item: Option<usize>)
        requires
            old(self).wf(),
        ensures
            final(self).wf(),
            *final(final(self).list) == *final(old(self).list),
            final(self).index() == old(self).index(),
            match item {
                Some(item) => {
                    &&& old(self).index() < old(self).list@.len()
                    &&& item == old(self).list@[old(self).index()]
                    &&& final(self).list@ == old(self).list@.remove(old(self).index())
                    &&& final(self).list.keys() == old(self).list.keys().remove(old(self).index())
                },
                None => {
                    &&& old(self).index() == old(self).list@.len()
                    &&& *final(self).list == *old(self).list
                },
            },
    {
        proof {
            self.list.lemma_position(self.token);
        }
        let ghost at = self.list.position(self.token);
        let ghost keys = self.list.order@;
        let ghost entries = slab_entries(self.list.slab);
        let ghost items = self.list@;
        let token = match self.token {
            Some(token) => token,
            None => {
                return None;
            },
        };
        assert(node_linked(entries, keys, at));
        assert(node_linked(entries, keys, 0));
        assert(node_linked(entries, keys, keys.len() - 1));
        let mut node = self.list.remove_node(token);

        // fix head and tail if node is either of that
        let prev = node.prev;
        let next = node.next;
        if Some(token) == self.list.head {
            self.list.head = next;
        }
        if Some(token) == self.list.tail {
            self.list.tail = prev;
        }
        // fix the next and prev ptrs of the node before and after this

        if let Some(prev) = prev {
            assert(node_linked(entries, keys, at - 1));
            let before = self.list.get_node_mut(prev);
            before.next = next;
        }
        if let Some(next) = next {
            assert(node_linked(entries, keys, at + 1));
            let after = self.list.get_node_mut(next);
            after.prev = prev;
        }
        node.next = None;
        node.prev = None;
        self.list.len -= 1;
        self.list.order = Ghost(keys.remove(at));

        self.token = next;

        proof {
            let after = slab_entries(self.list.slab);
            assert(after.dom() =~= entries.dom().remove(keys[at]));
            assert forall|i: int| 0 <= i < keys.len() && i != at implies {
                &&& (#[trigger] after[keys[i]]).data == entries[keys[i]].data
                &&& raw_of(after[keys[i]].prev) == (if i == at + 1 {
                    key_before(keys, at)
                } else {
                    raw_of(entries[keys[i]].prev)
                })
                &&& raw_of(after[keys[i]].next) == (if i == at - 1 {
                    key_after(keys, at)
                } else {
                    raw_of(entries[keys[i]].next)
                })
            } by {
                assert(node_linked(entries, keys, i));
            }
            lemma_unlinked_chained(entries, after, keys, at);
            let rest = keys.remove(at);
            assert(self.list@ =~= items.remove(at)) by {
                assert forall|i: int| 0 <= i < rest.len() implies
                    self.list@[i] == items.remove(at)[i] by {
                    let j = if i < at { i } else { i + 1 };
                    assert(rest[i] == keys[j]);
                    assert(after[keys[j]].data == entries[keys[j]].data);
                }
            }
            if at < rest.len() {
                assert(rest[at] == keys[at + 1]);
                assert(rest.index_of(keys[at + 1]) == at);
            }
        }
        Some(node.data)
    }

    /// Insert an item before the current one.
    ///
    /// If iter is on null, insert to tail.
    pub fn insert_before(&mut self, data: usize)
        requires
            old(self).wf(),
        ensures
            final(self).wf(),
            *final(final(self).list) == *final(old(self).list),
            final(self).index() == old(self).index() + 1,
            final(self).list@ == old(self).list@.insert(old(self).index(), data),
            final(self).list.keys().len() == old(self).list.keys().len() + 1,
            final(self).list.keys() == old(self).list.keys().insert(
                old(self).index(),
                final(self).list.keys()[old(self).index()],
            ),
            !old(self).list.keys().contains(final(self).list.keys()[old(self).index()]),
    {
        proof {
            self.list.lemma_position(self.token);
        }
        let ghost at = self.list.position(self.token);
        let ghost keys = self.list.order@;
        let ghost entries = slab_entries(self.list.slab);
        let ghost items = self.list@;
        let token_new = self.list.insert_node(Node::new(data));
        proof {
            if keys.len() > 0 {
                assert(node_linked(entries, keys, keys.len() - 1));
                assert(node_linked(entries, keys, 0));
            }
            if at < keys.len() {
                assert(node_linked(entries, keys, at));
            }
            if at > 0 {
                assert(node_linked(entries, keys, at - 1));
            }
            if keys.contains(token_new.raw()) {
                let i = keys.index_of(token_new.raw());
                assert(node_linked(entries, keys, i));
            }
        }
        let ghost prev: Option<SlabToken>;
        let ghost next: Option<SlabToken>;
        match self.token {
            Some(token) => {
                proof {
                    prev = entries[token.raw()].prev;
                    next = Some(token);
                }
                self.link_before(token_new, token)
            },
            None => {
                proof {
                    prev = self.list.tail;
                    next = None;
                }
                let tail = self.list.tail;
                self.link_between(token_new, tail, None);
                self.list.tail = Some(token_new);
            },
        }

        if self.list.head == self.token {
            self.list.head = Some(token_new);
        }
        proof {
            lemma_spliced_chained(entries, keys, at, token_new, data, prev, next);
            let grown = keys.insert(at, token_new.raw());
            assert forall|i: int| 0 <= i < grown.len() implies #[trigger] grown[i] < MASK by {
                assert(node_linked(slab_entries(self.list.slab), grown, i));
                let key = grown[i];
                assert(key < MASK) by (bit_vector)
                    requires
                        key & MASK == 0,
                ;
            }
            lemma_distinct_below(grown, MASK as nat);
        }
        self.list.len += 1;
        self.list.order = Ghost(keys.insert(at, token_new.raw()));
        proof {
            let grown = keys.insert(at, token_new.raw());
            let after = slab_entries(self.list.slab);
            assert(self.list@ =~= items.insert(at, data)) by {
                assert forall|i: int| 0 <= i < grown.len() implies
                    self.list@[i] == items.insert(at, data)[i] by {
                    if i < at {
                        assert(grown[i] == keys[i]);
                    } else if i > at {
                        assert(grown[i] == keys[i - 1]);
                    }
                }
            }
            assert(grown[at] == token_new.raw());
            if at < keys.len() {
                assert(grown[at + 1] == keys[at]);
                assert(grown.index_of(keys[at]) == at + 1);
            }
        }
    }

    /// Insert an item after the current one.
    ///
    /// If iter is on null, insert to head.
    pub fn insert_after(&mut self, data: usize)
        requires
            old(self).wf(),
        ensures
            final(self).wf(),
            *final(final(self).list) == *final(old(self).list),
            final(self).index() == (if old(self).index() == old(self).list@.len() {
                old(self).index() + 1
            } else {
                old(self).index()
            }),
            final(self).list@ == old(self).list@.insert(
                step_forward(old(self).index(), old(self).list@.len()),
                data,
            ),
            final(self).list.keys().len() == old(self).list.keys().len() + 1,
            final(self).list.keys() == old(self).list.keys().insert(
                step_forward(old(self).index(), old(self).list@.len()),
                final(self).list.keys()[step_forward(old(self).index(), old(self).list@.len())],
            ),
            !old(self).list.keys().contains(
                final(self).list.keys()[step_forward(old(self).index(), old(self).list@.len())],
            ),
    {
        proof {
            self.list.lemma_position(self.token);
        }
        let ghost keys = self.list.order@;
        let ghost at = step_forward(self.list.position(self.token), keys.len());
        let ghost entries = slab_entries(self.list.slab);
        let ghost items = self.list@;
        let token_new = self.list.insert_node(Node::new(data));
        proof {
            if keys.len() > 0 {
                assert(node_linked(entries, keys, keys.len() - 1));
                assert(node_linked(entries, keys, 0));
            }
            if at < keys.len() {
                assert(node_linked(entries, keys, at));
            }
            if at > 0 {
                assert(node_linked(entries, keys, at - 1));
            }
            if keys.contains(token_new.raw()) {
                let i = keys.index_of(token_new.raw());
                assert(node_linked(entries, keys, i));
            }
        }
        let ghost prev: Option<SlabToken>;
        let ghost next: Option<SlabToken>;
        match self.token {
            Some(token) => {
                proof {
                    prev = Some(token);
                    next = entries[token.raw()].next;
                }
                self.link_after(token_new, token)
            },
            None => {
                proof {
                    prev = None;
                    next = self.list.head;
                }
                let head = self.list.head;
                self.link_between(token_new, None, head);
                self.list.head = Some(token_new);
            },
        }

        if self.list.tail == self.token {
            self.list.tail = Some(token_new);
        }
        proof {
            lemma_spliced_chained(entries, keys, at, token_new, data, prev, next);
            let grown = keys.insert(at, token_new.raw());
            assert forall|i: int| 0 <= i < grown.len() implies #[trigger] grown[i] < MASK by {
                assert(node_linked(slab_entries(self.list.slab), grown, i));
                let key = grown[i];
                assert(key < MASK) by (bit_vector)
                    requires
                        key & MASK == 0,
                ;
            }
            lemma_distinct_below(grown, MASK as nat);
        }
        self.list.len += 1;
        self.list.order = Ghost(keys.insert(at, token_new.raw()));
        proof {
            let grown = keys.insert(at, token_new.raw());
            assert(self.list@ =~= items.insert(at, data)) by {
                assert forall|i: int| 0 <= i < grown.len() implies
                    self.list@[i] == items.insert(at, data)[i] by {
                    if i < at {
                        assert(grown[i] == keys[i]);
                    } else if i > at {
                        assert(grown[i] == keys[i - 1]);
                    }
                }
            }
            assert(grown[at] == token_new.raw());
            if at > 0 {
                assert(grown[at - 1] == keys[at - 1]);
                assert(grown.index_of(keys[at - 1]) == at - 1);
            }
        }
    }

    /// Links the node under `token` before the node under `next`.
    fn link_before(&mut self, token: SlabToken, next: SlabToken)
        requires
            slab_entries(old(self).list.slab).dom().contains(token.raw()),
            slab_entries(old(self).list.slab).dom().contains(next.raw()),
            slab_entries(old(self).list.slab)[next.raw()].prev matches Some(prev)
                ==> slab_entries(old(self).list.slab).dom().contains(prev.raw()),
        ensures
            slab_entries(final(self).list.slab) == spliced(
                slab_entries(old(self).list.slab),
                token,
                slab_entries(old(self).list.slab)[next.raw()].prev,
                Some(next),
            ),
            final(self).list.head == old(self).list.head,
            final(self).list.tail == old(self).list.tail,
            final(self).list.len == old(self).list.len,
            final(self).list.order == old(self).list.order,
            final(self).token == old(self).token,
            *final(final(self).list) == *final(old(self).list),
    {
        let prev = self.list.get_node(next).prev;
        self.link_between(token, prev, Some(next));
    }

    /// Links the node under `token` after the node under `prev`.
    fn link_after(&mut self, token: SlabToken, prev: SlabToken)
        requires
            slab_entries(old(self).list.slab).dom().contains(token.raw()),
            slab_entries(old(self).list.slab).dom().contains(prev.raw()),
            slab_entries(old(self).list.slab)[prev.raw()].next matches Some(next)
                ==> slab_entries(old(self).list.slab).dom().contains(next.raw()),
        ensures
            slab_entries(final(self).list.slab) == spliced(
                slab_entries(old(self).list.slab),
                token,
                Some(prev),
                slab_entries(old(self).list.slab)[prev.raw()].next,
            ),
            final(self).list.head == old(self).list.head,
            final(self).list.tail == old(self).list.tail,
            final(self).list.len == old(self).list.len,
            final(self).list.order == old(self).list.order,
            final(self).token == old(self).token,
            *final(final(self).list) == *final(old(self).list),
    {
        let next = self.list.get_node(prev).next;
        self.link_between(token, Some(prev), next);
    }
}

impl<'a> SlabLinkedListIterMut<'a> {
    /// Get the item mutable reference of the current position.
    pub fn data_mut(&mut self) -> (item: Option<&mut usize>)
        requires
            old(self).wf(),
        ensures
            final(self).wf(),
            *final(final(self).list) == *final(old(self).list),
            final(self).token == old(self).token,
            final(self).list.keys() == old(self).list.keys(),
            match item {
                Some(item) => {
                    &&& old(self).index() < old(self).list@.len()
                    &&& *item == old(self).list@[old(self).index()]
                    &&& final(self).list@ == old(self).list@.update(old(self).index(), *final(item))
                },
                None => {
                    &&& old(self).index() == old(self).list@.len()
                    &&& *final(self).list == *old(self).list
                },
            },
    {
        proof {
            self.list.lemma_position(self.token);
        }
        match self.token {
            Some(token) => Some(self.list.item_mut(token)),
            None => None,
        }
    }
}

impl SlabLinkedList {
    /// A mutable borrow of the item of the node under `token`. Writing through it changes that
    /// item and nothing else.
    fn item_mut(&mut self, token: SlabToken) -> (item: &mut usize)
        requires
            old(self).wf(),
            old(self).keys().contains(token.raw()),
        ensures
            *item == old(self)@[old(self).keys().index_of(token.raw())],
            final(self).wf(),
            final(self).keys() == old(self).keys(),
            final(self)@ == old(self)@.update(old(self).keys().index_of(token.raw()), *final(item)),
    {
        let ghost keys = self.order@;
        let ghost entries = slab_entries(self.slab);
        let ghost at = keys.index_of(token.raw());
        let ghost before = *self;
        assert(node_linked(entries, keys, at));
        let node = self.get_node_mut(token);
        let ghost found = *node;
        let item = &mut node.data;
        proof {
            let after = entries.insert(
                token.raw(),
                Node { data: *final(item), prev: found.prev, next: found.next },
            );
            assert forall|i: int| 0 <= i < keys.len() implies
                #[trigger] node_linked(after, keys, i) by {
                assert(node_linked(entries, keys, i));
            }
            assert(chained(after, keys));
            let items = Seq::new(keys.len(), |i: int| after[keys[i]].data);
            assert(items =~= before@.update(at, *final(item))) by {
                assert forall|i: int| 0 <= i < keys.len() implies items[i] == before@.update(
                    at,
                    *final(item),
                )[i] by {
                    assert(node_linked(entries, keys, i));
                }
            }
        }
        item
    }
}

impl SlabLinkedList {
    /// Get the mutable reference of the first item of the double linked list.
    pub fn front_mut(&mut self) -> (item: Option<&mut usize>)
        requires
            old(self).wf(),
        ensures
            final(self).wf(),
            final(self).keys() == old(self).keys(),
            match item {
                Some(item) => {
                    &&& old(self)@.len() > 0
                    &&& *item == old(self)@[0]
                    &&& final(self)@ == old(self)@.update(0, *final(item))
                },
                None => old(self)@.len() == 0 && *final(self) == *old(self),
            },
    {
        match self.head {
            Some(token) => {
                assert(self.order@[0] == token.raw());
                Some(self.item_mut(token))
            },
            None => None,
        }
    }

    /// Get the mutable reference of the last item of the double linked list.
    pub fn back_mut(&mut self) -> (item: Option<&mut usize>)
        requires
            old(self).wf(),
        ensures
            final(self).wf(),
            final(self).keys() == old(self).keys(),
            match item {
                Some(item) => {
                    &&& old(self)@.len() > 0
                    &&& *item == old(self)@[old(self)@.len() - 1]
                    &&& final(self)@ == old(self)@.update(old(self)@.len() - 1, *final(item))
                },
                None => old(self)@.len() == 0 && *final(self) == *old(self),
            },
    {
        match self.tail {
            Some(token) => {
                assert(self.order@[self.order@.len() - 1] == token.raw());
                Some(self.item_mut(token))
            },
            None => None,
        }
    }

    /// Push an item to the first position of the double linked list.
    pub fn push_front(&mut self, data: usize)
        requires
            old(self).wf(),
        ensures
            final(self).wf(),
            final(self)@ == seq![data] + old(self)@,
            final(self).keys().len() == old(self).keys().len() + 1,
            final(self).keys() == seq![final(self).keys()[0]] + old(self).keys(),
            !old(self).keys().contains(final(self).keys()[0]),
    {
        let ghost keys = self.keys();
        let ghost items = self@;
        let mut iter = self.iter_mut();
        iter.insert_after(data);
        proof {
            assert(items.insert(0, data) =~= seq![data] + items);
            assert(keys.insert(0, iter.list.keys()[0]) =~= seq![iter.list.keys()[0]] + keys);
        }
    }

    /// Push an item to the last position of the double linked list.
    pub fn push_back(&mut self, data: usize)
        requires
            old(self).wf(),
        ensures
            final(self).wf(),
            final(self)@ == old(self)@.push(data),
            final(self).keys().len() == old(self).keys().len() + 1,
            final(self).keys() == old(self).keys().push(final(self).keys()[old(self).keys().len() as int]),
            !old(self).keys().contains(final(self).keys()[old(self).keys().len() as int]),
    {
        let ghost keys = self.keys();
        let ghost items = self@;
        proof {
            self.lemma_keys();
        }
        let mut iter = self.iter_mut();
        iter.insert_before(data);
        proof {
            let n = keys.len() as int;
            assert(items.insert(n, data) =~= items.push(data));
            assert(keys.insert(n, iter.list.keys()[n]) =~= keys.push(iter.list.keys()[n]));
        }
    }

    /// Pop an item from the first position of the double linked list.
    pub fn pop_front(&mut self) -> (item: Option<usize>)
        requires
            old(self).wf(),
        ensures
            final(self).wf(),
            match item {
                Some(item) => {
                    &&& old(self)@.len() > 0
                    &&& item == old(self)@[0]
                    &&& final(self)@ == old(self)@.drop_first()
                    &&& final(self).keys() == old(self).keys().drop_first()
                },
                None => old(self)@.len() == 0 && *final(self) == *old(self),
            },
    {
        let ghost keys = self.keys();
        let ghost items = self@;
        proof {
            self.lemma_keys();
        }
        let mut iter = self.iter_mut();
        iter.next();
        let item = iter.remove();
        proof {
            if items.len() > 0 {
                assert(items.remove(0) =~= items.drop_first());
                assert(keys.remove(0) =~= keys.drop_first());
            }
        }
        item
    }

    /// Pop an item from the last position of the double linked list.
    pub fn pop_back(&mut self) -> (item: Option<usize>)
        requires
            old(self).wf(),
        ensures
            final(self).wf(),
            match item {
                Some(item) => {
                    &&& old(self)@.len() > 0
                    &&& item == old(self)@[old(self)@.len() - 1]
                    &&& final(self)@ == old(self)@.drop_last()
                    &&& final(self).keys() == old(self).keys().drop_last()
                },
                None => old(self)@.len() == 0 && *final(self) == *old(self),
            },
    {
        let ghost keys = self.keys();
        let ghost items = self@;
        proof {
            self.lemma_keys();
        }
        let mut iter = self.iter_mut();
        iter.prev();
        let item = iter.remove();
        proof {
            if items.len() > 0 {
                assert(items.remove(items.len() - 1) =~= items.drop_last());
                assert(keys.remove(keys.len() - 1) =~= keys.drop_last());
            }
        }
        item
    }

    /// Remove the node under a slab token and return its item. The token must belong to this
    /// list.
    pub fn remove_raw(&mut self, token: SlabToken) -> (item: usize)
        requires
            old(self).wf(),
            old(self).keys().contains(token.raw()),
        ensures
            final(self).wf(),
            item == old(self)@[old(self).keys().index_of(token.raw())],
            final(self)@ == old(self)@.remove(old(self).keys().index_of(token.raw())),
            final(self).keys() == old(self).keys().remove(old(self).keys().index_of(token.raw())),
    {
        proof {
            self.lemma_keys();
            self.lemma_position(Some(token));
        }
        let mut iter = self.iter_mut_from_raw(token);
        match iter.remove() {
            Some(item) => item,
            None => vstd::pervasive::unreached(),
        }
    }

    /// The items of the list, front to back, in a vector.
    pub fn to_vec(&self) -> (items: Vec<usize>)
        requires
            self.wf(),
        ensures
            items@ == self@,
    {
        let mut items: Vec<usize> = Vec::new();
        let mut iter = self.iter();
        iter.next();
        proof {
            self.lemma_keys();
        }
        while iter.is_valid()
            invariant
                iter.wf(),
                iter.list() == *self,
                0 <= iter.index() <= self@.len(),
                items@ == self@.take(iter.index()),
            decreases self@.len() - iter.index(),
        {
            let ghost at = iter.index();
            match iter.data() {
                Some(item) => items.push(*item),
                None => {},
            }
            iter.next();
            proof {
                assert(self@.take(at + 1) =~= self@.take(at).push(self@[at]));
            }
        }
        proof {
            assert(self@.take(self@.len() as int) =~= self@);
        }
        items
    }
}

} // verus!
