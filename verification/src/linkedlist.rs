//! A doubly linked list with a position index that is corrected lazily.
use crate::voids::gap_width;
use crate::voids::gaps_valid;
use crate::voids::lemma_translate_bounds;
use crate::voids::lemma_translate_monotone;
use crate::voids::lemma_translate_push;
use crate::voids::lemma_translate_saturated;
use crate::voids::total_width;
use crate::voids::translate;
use crate::voids::IndexVoid;
use crate::voids::Void;
use std::collections::HashMap;
use std::ops::Range;
use vstd::prelude::*;

verus! {

broadcast use vstd::std_specs::hash::group_hash_axioms;

/// A reference to a node: its place in the list's node store, or nothing.
pub type Link = Option<usize>;

/// One item of the list with the links to its neighbours.
pub struct Node<T> {
    value: T,
    next: Link,
    prev: Link,
}

impl<T> Node<T> {
    /// The item that the node holds.
    pub closed spec fn value_spec(&self) -> T {
        self.value
    }

    /// The node behind this one.
    pub closed spec fn next_spec(&self) -> Link {
        self.next
    }

    /// The node in front of this one.
    pub closed spec fn prev_spec(&self) -> Link {
        self.prev
    }

    /// A node that holds `t` and has no neighbours.
    pub fn new(t: T) -> (node: Node<T>)
        ensures
            node.value_spec() == t,
            node.next_spec() == None::<usize>,
            node.prev_spec() == None::<usize>,
    {
        Node { value: t, next: None, prev: None }
    }
}

/// A map from keys to values that is read by position: a position is first
/// translated into a key, past the recorded gaps, and the key is then
/// looked up.
pub struct ImaginaryHashMap<T> {
    indexes: HashMap<usize, T>,
    index_void: IndexVoid,
}

impl<T> ImaginaryHashMap<T> {
    /// What is stored, by key.
    pub closed spec fn entries(&self) -> Map<usize, T> {
        self.indexes@
    }

    /// The recorded gaps, oldest first.
    pub closed spec fn gaps(&self) -> Seq<(usize, usize)> {
        self.index_void.gaps()
    }

    /// The recorded gaps are valid and their widths add up to a machine
    /// integer.
    pub open spec fn wf(&self) -> bool {
        &&& gaps_valid(self.gaps())
        &&& total_width(self.gaps()) <= usize::MAX
    }

    /// An empty map without gaps.
    pub fn new() -> (map: ImaginaryHashMap<T>)
        ensures
            map.wf(),
            map.entries() == Map::<usize, T>::empty(),
            map.gaps() == Seq::<(usize, usize)>::empty(),
    {
        ImaginaryHashMap { index_void: IndexVoid::new(), indexes: HashMap::new() }
    }

    /// Stores `value` under `key`, in place of what was there.
    pub fn insert(&mut self, key: usize, value: T)
        requires
            old(self).wf(),
        ensures
            final(self).wf(),
            final(self).entries() == old(self).entries().insert(key, value),
            final(self).gaps() == old(self).gaps(),
    {
        self.indexes.insert(key, value);
    }

    /// Forgets every entry and every gap.
    pub fn clear(&mut self)
        ensures
            final(self).wf(),
            final(self).entries() == Map::<usize, T>::empty(),
            final(self).gaps() == Seq::<(usize, usize)>::empty(),
    {
        self.index_void.clear();
        self.indexes.clear();
    }

    /// The number of entries, less the number of keys that the gaps cover.
    pub fn len(&self) -> (len: usize)
        requires
            self.wf(),
            total_width(self.gaps()) <= self.entries().len(),
        ensures
            len == self.entries().len() - total_width(self.gaps()),
    {
        self.indexes.len() - self.index_void.del_gap()
    }

    /// Records a gap. No entry is removed and no key changes.
    pub fn add_void(&mut self, gap: Void)
        requires
            old(self).wf(),
            total_width(old(self).gaps()) + gap_width(gap.bounds()) <= usize::MAX,
        ensures
            final(self).wf(),
            final(self).entries() == old(self).entries(),
            final(self).gaps() == old(self).gaps().push(gap.bounds()),
    {
        self.index_void.insert(gap);
    }

    /// The value at position `im_idx`: the entry under the key that the
    /// position translates to, or nothing where there is no such entry.
    pub fn get(&self, im_idx: &usize) -> (value: Option<&T>)
        requires
            self.wf(),
            translate(self.gaps(), *im_idx as int) <= usize::MAX,
        ensures
            value == if self.entries().contains_key(translate(self.gaps(), *im_idx as int) as usize) {
                Some(&self.entries()[translate(self.gaps(), *im_idx as int) as usize])
            } else {
                None
            },
    {
        let key = self.index_void.real_index(*im_idx);
        self.indexes.get(&key)
    }
}

/// The keys below `n`.
pub open spec fn keys_below(n: nat) -> Set<usize> {
    Set::new(|k: usize| k < n)
}

/// There are `n` keys below `n`.
pub proof fn lemma_keys_below_len(n: nat)
    requires
        n <= usize::MAX,
    ensures
        keys_below(n).finite(),
        keys_below(n).len() == n,
    decreases n,
{
    if n == 0 {
        assert(keys_below(0) =~= Set::<usize>::empty());
    } else {
        lemma_keys_below_len((n - 1) as nat);
        assert(keys_below(n) =~= keys_below((n - 1) as nat).insert((n - 1) as usize));
    }
}

/// `seq` with the items from `start` to `end`, both included, replaced by
/// the one item `element`.
pub open spec fn spliced<T>(seq: Seq<T>, start: int, end: int, element: T) -> Seq<T> {
    seq.subrange(0, start).push(element) + seq.subrange(end + 1, seq.len() as int)
}

/// `seq` after the edits of the list, applied in order. An edit `(s, e, x)`
/// replaces the items at the positions from `s` to `e`, both included, by
/// `x`; positions are those of the sequence as the earlier edits left it.
/// An edit whose range is empty or reaches past the end changes nothing.
pub open spec fn edited<T>(seq: Seq<T>, edits: Seq<(int, int, T)>) -> Seq<T>
    decreases edits.len(),
{
    if edits.len() == 0 {
        seq
    } else {
        let before = edited(seq, edits.drop_last());
        let edit = edits.last();
        if 0 <= edit.0 <= edit.1 < before.len() {
            spliced(before, edit.0, edit.1, edit.2)
        } else {
            before
        }
    }
}

/// Where the item at position `i` of the edited sequence stood in `seq`,
/// or nothing for an item that an edit put in.
pub open spec fn origin<T>(seq: Seq<T>, edits: Seq<(int, int, T)>, i: int) -> Option<int>
    decreases edits.len(),
{
    if edits.len() == 0 {
        Some(i)
    } else {
        let before = edited(seq, edits.drop_last());
        let edit = edits.last();
        if 0 <= edit.0 <= edit.1 < before.len() {
            if i < edit.0 {
                origin(seq, edits.drop_last(), i)
            } else if i == edit.0 {
                None
            } else {
                origin(seq, edits.drop_last(), i + (edit.1 - edit.0))
            }
        } else {
            origin(seq, edits.drop_last(), i)
        }
    }
}

/// After any number of edits, every position of the list holds either an
/// item that an edit put in or an item that survived from `seq`, and the
/// survivors stand in the order in which they stood in `seq`.
pub proof fn lemma_edits_keep_survivors<T>(seq: Seq<T>, edits: Seq<(int, int, T)>, i: int, j: int)
    requires
        0 <= i < j < edited(seq, edits).len(),
    ensures
        origin(seq, edits, i) matches Some(at) ==> 0 <= at < seq.len() && edited(seq, edits)[i]
            == seq[at],
        origin(seq, edits, j) matches Some(at) ==> 0 <= at < seq.len() && edited(seq, edits)[j]
            == seq[at],
        origin(seq, edits, i) matches Some(a) ==> (origin(seq, edits, j) matches Some(b) ==> a < b),
    decreases edits.len(),
{
    if edits.len() > 0 {
        let earlier = edits.drop_last();
        let before = edited(seq, earlier);
        let edit = edits.last();
        if 0 <= edit.0 <= edit.1 < before.len() {
            let d = edit.1 - edit.0;
            let oi = if i < edit.0 {
                i
            } else {
                i + d
            };
            let oj = if j < edit.0 {
                j
            } else {
                j + d
            };
            lemma_edits_keep_survivors(seq, earlier, oi, oj);
        } else {
            lemma_edits_keep_survivors(seq, earlier, i, j);
        }
    }
}

/// The node at position `i` of the chain is in the store and is linked to
/// the node in front of it and to the node behind it.
spec fn linked_at<T>(nodes: Seq<Node<T>>, chain: Seq<usize>, i: int) -> bool {
    &&& chain[i] < nodes.len()
    &&& nodes[chain[i] as int].next == (if i + 1 < chain.len() {
        Some(chain[i + 1])
    } else {
        None
    })
    &&& nodes[chain[i] as int].prev == (if i > 0 {
        Some(chain[i - 1])
    } else {
        None
    })
}

/// The chain names the live nodes in order: each is linked to its
/// neighbours, none occurs twice, and `start` and `tail` name the first
/// and the last.
spec fn links_ok<T>(nodes: Seq<Node<T>>, chain: Seq<usize>, start: Link, tail: Link) -> bool {
    &&& forall|i: int| 0 <= i < chain.len() ==> #[trigger] linked_at(nodes, chain, i)
    &&& forall|i: int, j: int|
        0 <= i < j < chain.len() ==> (#[trigger] chain[i]) != (#[trigger] chain[j])
    &&& start == (if chain.len() > 0 {
        Some(chain[0])
    } else {
        None
    })
    &&& tail == (if chain.len() > 0 {
        Some(chain[chain.len() - 1])
    } else {
        None
    })
}

/// Every position translates to the key under which its node is stored,
/// the keys in use are those below `len`, and `len` is what the position
/// behind the last translates to.
spec fn index_ok(
    chain: Seq<usize>,
    gaps: Seq<(usize, usize)>,
    entries: Map<usize, Link>,
    len: usize,
) -> bool {
    &&& gaps_valid(gaps)
    &&& chain.len() + total_width(gaps) == len
    &&& translate(gaps, chain.len() as int) == len
    &&& entries.dom() == keys_below(len as nat)
    &&& forall|k: int|
        0 <= k < chain.len() ==> entries[translate(gaps, k) as usize] == Some(#[trigger] chain[k])
}

/// The items that the chain names, in order.
spec fn items<T>(nodes: Seq<Node<T>>, chain: Seq<usize>) -> Seq<T> {
    Seq::new(chain.len(), |i: int| nodes[chain[i] as int].value)
}

/// The chain after the nodes at the positions `s` to `e` gave way to the
/// node `handle`.
spec fn spliced_chain(chain: Seq<usize>, s: int, e: int, handle: usize) -> Seq<usize> {
    chain.subrange(0, s).push(handle) + chain.subrange(e + 1, chain.len() as int)
}

/// `after` is the store `before` with one node added at its end, in which
/// the node `front`, where there is one, now points forward to the new
/// node, the node `back`, where there is one, now points backward to it,
/// and every other link and every item is as it was.
spec fn relinked<T>(before: Seq<Node<T>>, after: Seq<Node<T>>, front: Link, back: Link) -> bool {
    let handle = before.len() as usize;
    &&& after.len() == before.len() + 1
    &&& after[before.len() as int].prev == front
    &&& after[before.len() as int].next == back
    &&& forall|x: int|
        0 <= x < before.len() ==> {
            &&& (#[trigger] after[x]).value == before[x].value
            &&& after[x].next == if front == Some(x as usize) {
                Some(handle)
            } else {
                before[x].next
            }
            &&& after[x].prev == if back == Some(x as usize) {
                Some(handle)
            } else {
                before[x].prev
            }
        }
}

/// Replacing a stretch of the chain by a new node that is linked to the
/// stretch's neighbours leaves a chain that names its nodes in order.
proof fn lemma_splice_links<T>(
    nodes: Seq<Node<T>>,
    chain: Seq<usize>,
    start: Link,
    tail: Link,
    after: Seq<Node<T>>,
    s: int,
    e: int,
)
    requires
        links_ok(nodes, chain, start, tail),
        0 <= s <= e < chain.len(),
        nodes.len() < usize::MAX,
        relinked(nodes, after, nodes[chain[s] as int].prev, nodes[chain[e] as int].next),
    ensures
        links_ok(
            after,
            spliced_chain(chain, s, e, nodes.len() as usize),
            if s > 0 {
                start
            } else {
                Some(nodes.len() as usize)
            },
            if e + 1 < chain.len() {
                tail
            } else {
                Some(nodes.len() as usize)
            },
        ),
        items(after, spliced_chain(chain, s, e, nodes.len() as usize)) == spliced(
            items(nodes, chain),
            s,
            e,
            after[nodes.len() as int].value,
        ),
{
    let handle = nodes.len() as usize;
    let out = spliced_chain(chain, s, e, handle);
    let d = e - s;
    assert(linked_at(nodes, chain, s));
    assert(linked_at(nodes, chain, e));
    assert forall|i: int| 0 <= i < out.len() implies out[i] == (if i < s {
        chain[i]
    } else if i == s {
        handle
    } else {
        chain[i + d]
    }) by {}
    assert forall|i: int| 0 <= i < chain.len() implies (#[trigger] chain[i]) < nodes.len() by {
        assert(linked_at(nodes, chain, i));
    }
    assert forall|i: int| 0 <= i < out.len() implies #[trigger] linked_at(after, out, i) by {
        if i < s {
            assert(linked_at(nodes, chain, i));
            if i + 1 < s {
                assert(chain[i] != chain[s - 1]);
            }
            if e + 1 < chain.len() {
                assert(chain[i] != chain[e + 1]);
            }
        } else if i > s {
            assert(linked_at(nodes, chain, i + d));
            if s > 0 {
                assert(chain[s - 1] != chain[i + d]);
            }
            if i + d > e + 1 {
                assert(chain[e + 1] != chain[i + d]);
            }
        }
    }
    assert forall|i: int, j: int| 0 <= i < j < out.len() implies (#[trigger] out[i]) != (
    #[trigger] out[j]) by {
        let oi = if i < s {
            i
        } else {
            i + d
        };
        let oj = if j < s {
            j
        } else {
            j + d
        };
        if i != s && j != s {
            assert(chain[oi] != chain[oj]);
        }
    }
    assert(items(after, out) =~= spliced(items(nodes, chain), s, e, after[nodes.len() as int].value));
}

/// Storing the new node under the key of the stretch's first node and
/// recording the keys of the stretch's other nodes as a gap keeps the
/// position index right, provided that every gap recorded before moves the
/// stretch's first position.
proof fn lemma_splice_index(
    chain: Seq<usize>,
    gaps: Seq<(usize, usize)>,
    entries: Map<usize, Link>,
    len: usize,
    s: int,
    e: int,
    handle: usize,
)
    requires
        index_ok(chain, gaps, entries, len),
        0 <= s <= e < chain.len(),
        translate(gaps, s) == s + total_width(gaps),
    ensures
        translate(gaps, e) == translate(gaps, s) + (e - s),
        translate(gaps, e) < len,
        index_ok(
            spliced_chain(chain, s, e, handle),
            if s < e {
                gaps.push(((translate(gaps, s) + 1) as usize, (translate(gaps, e) + 1) as usize))
            } else {
                gaps
            },
            entries.insert(translate(gaps, s) as usize, Some(handle)),
            len,
        ),
{
    let out = spliced_chain(chain, s, e, handle);
    let d = e - s;
    let p = translate(gaps, s);
    let q = translate(gaps, e);
    let gap = ((p + 1) as usize, (q + 1) as usize);
    let gaps2 = if s < e {
        gaps.push(gap)
    } else {
        gaps
    };
    let entries2 = entries.insert(p as usize, Some(handle));
    lemma_translate_bounds(gaps, 0);
    lemma_translate_saturated(gaps, s, e);
    lemma_translate_saturated(gaps, s, chain.len() as int);
    lemma_translate_push(gaps, gap, 0);
    assert(gaps_valid(gaps2));
    assert(entries2.dom() =~= keys_below(len as nat));
    assert forall|k: int| 0 <= k < out.len() implies entries2[translate(gaps2, k) as usize] == Some(
        #[trigger] out[k],
    ) by {
        lemma_translate_push(gaps, gap, k);
        if k < s {
            lemma_translate_monotone(gaps, k, s);
            lemma_translate_bounds(gaps, k);
            assert(out[k] == chain[k]);
        } else if k > s {
            lemma_translate_saturated(gaps, s, k);
            lemma_translate_saturated(gaps, s, k + d);
            assert(out[k] == chain[k + d]);
        }
    }
    lemma_translate_push(gaps, gap, out.len() as int);
    lemma_translate_saturated(gaps, s, out.len() as int);
}

/// A doubly linked list whose items can also be reached by position.
///
/// The nodes live in a store and refer to each other by their place in it.
/// Beside the links the list keeps a map from keys to nodes. A key is
/// given to a node when it is appended; replacing a stretch of nodes by
/// one node does not renumber the nodes behind it but records the keys
/// that fell away as a gap. A position is turned into a key by moving it
/// past the recorded gaps. `reindex` gives every node its position as key
/// and forgets the gaps. Nodes that an edit has replaced stay in the store,
/// unlinked.
pub struct LinkedHashList<T> {
    nodes: Vec<Node<T>>,
    start: Link,
    tail: Link,
    im_map: ImaginaryHashMap<Link>,
    len: usize,
    chain: Ghost<Seq<usize>>,
}

impl<T> View for LinkedHashList<T> {
    type V = Seq<T>;

    /// The items of the list, in order.
    closed spec fn view(&self) -> Seq<T> {
        items(self.nodes@, self.chain@)
    }
}

impl<T> LinkedHashList<T> {
    /// The links and the position index are consistent.
    pub closed spec fn wf(&self) -> bool {
        &&& links_ok(self.nodes@, self.chain@, self.start, self.tail)
        &&& index_ok(self.chain@, self.im_map.gaps(), self.im_map.entries(), self.len)
        &&& self.im_map.wf()
        &&& self.len <= self.nodes@.len()
    }

    /// How many gaps the position index holds. Each one adds a step to
    /// every lookup by position.
    pub closed spec fn gap_count(&self) -> nat {
        self.im_map.gaps().len()
    }

    /// The key under which the node at `position` is stored.
    pub closed spec fn key_of(&self, position: int) -> int {
        translate(self.im_map.gaps(), position)
    }

    /// Every recorded gap lies in front of `position`, so that an edit
    /// there can be recorded as one more gap.
    pub closed spec fn behind_gaps(&self, position: int) -> bool {
        translate(self.im_map.gaps(), position) == position + total_width(self.im_map.gaps())
    }

    /// An empty list.
    pub fn new() -> (list: LinkedHashList<T>)
        ensures
            list.wf(),
            list@ == Seq::<T>::empty(),
            list.gap_count() == 0,
            forall|k: int| list.key_of(k) == k,
    {
        let list = LinkedHashList {
            nodes: Vec::new(),
            start: None,
            tail: None,
            im_map: ImaginaryHashMap::new(),
            len: 0,
            chain: Ghost(Seq::empty()),
        };
        proof {
            assert(list.im_map.entries().dom() =~= keys_below(0));
            assert(list@ =~= Seq::<T>::empty());
        }
        list
    }

    /// The number of items.
    pub fn len(&self) -> (len: usize)
        requires
            self.wf(),
        ensures
            len == self@.len(),
    {
        proof {
            lemma_keys_below_len(self.len as nat);
            lemma_translate_bounds(self.im_map.gaps(), 0);
        }
        self.im_map.len()
    }

    /// Appends `element`.
    pub fn push(&mut self, element: T)
        requires
            old(self).wf(),
        ensures
            final(self).wf(),
            final(self)@ == old(self)@.push(element),
            final(self).gap_count() == old(self).gap_count(),
    {
        let ghost chain = self.chain@;
        let ghost nodes = self.nodes@;
        let ghost gaps = self.im_map.gaps();
        let handle = self.nodes.len();
        let mut node = Node::new(element);
        node.prev = self.tail;
        self.nodes.push(node);
        self.im_map.insert(self.len, Some(handle));
        match self.tail {
            Some(old_tail) => {
                assert(linked_at(nodes, chain, chain.len() - 1));
                self.nodes[old_tail].next = Some(handle);
            },
            None => {
                self.start = Some(handle);
            },
        }
        self.tail = Some(handle);
        assert(self.len < self.nodes.len());
        self.len = self.len + 1;
        proof {
            let longer = chain.push(handle);
            self.chain@ = longer;
            lemma_translate_bounds(gaps, 0);
            lemma_translate_saturated(gaps, chain.len() as int, chain.len() as int + 1);
            assert(self.im_map.entries().dom() =~= keys_below(self.len as nat));
            assert forall|k: int| 0 <= k < longer.len() implies self.im_map.entries()[translate(
                gaps,
                k,
            ) as usize] == Some(#[trigger] longer[k]) by {
                if k < chain.len() {
                    lemma_translate_monotone(gaps, k, chain.len() as int);
                    lemma_translate_bounds(gaps, k);
                    assert(chain[k] == longer[k]);
                }
            }
            assert forall|i: int| 0 <= i < longer.len() implies #[trigger] linked_at(
                self.nodes@,
                longer,
                i,
            ) by {
                if i < chain.len() {
                    assert(linked_at(nodes, chain, i));
                    if i + 1 < chain.len() {
                        assert(chain[i] != chain[chain.len() - 1]);
                    }
                }
            }
            assert forall|i: int, j: int| 0 <= i < j < longer.len() implies (#[trigger] longer[i])
                != (#[trigger] longer[j]) by {
                assert(linked_at(nodes, chain, i));
                if j < chain.len() {
                    assert(chain[i] != chain[j]);
                }
            }
            assert(self@ =~= old(self)@.push(element)) by {
                assert forall|i: int| 0 <= i < chain.len() implies self.nodes@[chain[i] as int].value
                    == nodes[chain[i] as int].value by {
                    assert(linked_at(nodes, chain, i));
                }
            }
        }
    }

    /// The item at position `index`, or nothing where the list is shorter.
    pub fn get(&self, index: usize) -> (item: Option<&T>)
        requires
            self.wf(),
        ensures
            item == if index < self@.len() {
                Some(&self@[index as int])
            } else {
                None
            },
    {
        if index >= self.len() {
            return None;
        }
        proof {
            lemma_translate_monotone(self.im_map.gaps(), index as int, self.chain@.len() as int);
            lemma_translate_bounds(self.im_map.gaps(), index as int);
            assert(linked_at(self.nodes@, self.chain@, index as int));
        }
        match self.im_map.get(&index) {
            Some(Some(handle)) => Some(&self.nodes[*handle].value),
            _ => None,
        }
    }

    /// An iterator over the items, from the first to the last.
    pub fn iter(&self) -> (iter: LinkedHashListIterator<'_, T>)
        requires
            self.wf(),
        ensures
            iter.wf(),
            iter.remaining() == self@,
    {
        let iter = LinkedHashListIterator { list: self, current: self.start, position: Ghost(0) };
        assert(iter.remaining() =~= self@);
        iter
    }

    /// Gives every node its position as key and forgets the gaps.
    pub fn reindex(&mut self)
        requires
            old(self).wf(),
        ensures
            final(self).wf(),
            final(self)@ == old(self)@,
            final(self).gap_count() == 0,
            forall|k: int| final(self).key_of(k) == k,
    {
        proof {
            lemma_translate_bounds(self.im_map.gaps(), 0);
        }
        self.im_map.clear();
        let ghost chain = self.chain@;
        let ghost nodes = self.nodes@;
        let mut new_indexes: ImaginaryHashMap<Link> = ImaginaryHashMap::new();
        let mut idx: usize = 0;
        let mut current = self.start;
        assert(new_indexes.entries().dom() =~= keys_below(0));
        assert(nodes.len() == self.nodes.len());
        while current.is_some()
            invariant
                links_ok(nodes, chain, self.start, self.tail),
                nodes == self.nodes@,
                chain.len() <= nodes.len() <= usize::MAX,
                idx <= chain.len(),
                current == (if idx < chain.len() {
                    Some(chain[idx as int])
                } else {
                    None
                }),
                new_indexes.wf(),
                new_indexes.gaps() == Seq::<(usize, usize)>::empty(),
                new_indexes.entries().dom() == keys_below(idx as nat),
                forall|k: int|
                    0 <= k < idx ==> new_indexes.entries()[k as usize] == Some(#[trigger] chain[k]),
            decreases chain.len() - idx,
        {
            let handle = current.unwrap();
            assert(linked_at(nodes, chain, idx as int));
            new_indexes.insert(idx, Some(handle));
            current = self.nodes[handle].next;
            idx = idx + 1;
            assert(new_indexes.entries().dom() =~= keys_below(idx as nat));
        }
        proof {
            lemma_keys_below_len(idx as nat);
        }
        self.im_map = new_indexes;
        self.len = self.im_map.len();
    }

    /// Replaces the items at the positions from `range.start` to
    /// `range.end` by the one item `element`. Both ends are part of the
    /// stretch: the items at `range.start` and at `range.end` go, the
    /// items in front of the first and behind the second stay. Where
    /// `range.end` lies in front of `range.start` or behind the last item,
    /// nothing changes.
    ///
    /// The steps are taken in this order. The nodes at both ends are
    /// looked up by position. The new node is linked to the node in front
    /// of the first and to the node behind the last, or becomes the first
    /// or last node of the list where there is none. The new node is then
    /// stored under the key of the stretch's first node. Last, the keys of
    /// the other nodes of the stretch are recorded as a gap; no entry is
    /// removed and no key changes.
    ///
    /// Gaps are applied in the order of their recording, so a position is
    /// turned into the right key only while every recorded gap moves the
    /// stretch that is being replaced. Where that is not so, because an
    /// earlier edit lies behind this one or at the same place, the list is
    /// reindexed before the edit.
    pub fn replace(&mut self, range: Range<usize>, element: T)
        requires
            old(self).wf(),
        ensures
            final(self).wf(),
            final(self)@ == if range.start <= range.end && range.end < old(self)@.len() {
                spliced(old(self)@, range.start as int, range.end as int, element)
            } else {
                old(self)@
            },
            final(self).gap_count() == if range.start <= range.end && range.end < old(self)@.len() {
                (if old(self).behind_gaps(range.start as int) {
                    old(self).gap_count()
                } else {
                    0
                }) + (if range.start < range.end {
                    1nat
                } else {
                    0
                })
            } else {
                old(self).gap_count()
            },
    {
        let live = self.len();
        if range.start > range.end || range.end >= live {
            return ;
        }
        proof {
            lemma_translate_bounds(self.im_map.gaps(), 0);
            lemma_translate_monotone(
                self.im_map.gaps(),
                range.start as int,
                self.chain@.len() as int,
            );
            lemma_translate_bounds(self.im_map.gaps(), range.start as int);
        }
        if self.im_map.index_void.real_index(range.start) != range.start + (self.len - live) {
            self.reindex();
        }
        self.replace_behind_gaps(range, element);
    }

    /// Replaces a stretch that lies behind every recorded gap.
    fn replace_behind_gaps(&mut self, range: Range<usize>, element: T)
        requires
            old(self).wf(),
            range.start <= range.end < old(self)@.len(),
            translate(old(self).im_map.gaps(), range.start as int) == range.start + total_width(
                old(self).im_map.gaps(),
            ),
        ensures
            final(self).wf(),
            final(self)@ == spliced(old(self)@, range.start as int, range.end as int, element),
            final(self).gap_count() == old(self).gap_count() + (if range.start < range.end {
                1nat
            } else {
                0
            }),
    {
        let ghost chain = self.chain@;
        let ghost nodes = self.nodes@;
        let ghost s = range.start as int;
        let ghost e = range.end as int;
        proof {
            lemma_translate_bounds(self.im_map.gaps(), 0);
            lemma_splice_index(
                chain,
                self.im_map.gaps(),
                self.im_map.entries(),
                self.len,
                s,
                e,
                nodes.len() as usize,
            );
            assert(linked_at(nodes, chain, s));
            assert(linked_at(nodes, chain, e));
            if s > 0 {
                assert(linked_at(nodes, chain, s - 1));
            }
            if e + 1 < chain.len() {
                assert(linked_at(nodes, chain, e + 1));
            }
        }
        let key_start = self.im_map.index_void.real_index(range.start);
        let key_end = self.im_map.index_void.real_index(range.end);
        let first = match self.im_map.get(&range.start) {
            Some(Some(first)) => *first,
            _ => {
                return ;
            },
        };
        let last = match self.im_map.get(&range.end) {
            Some(Some(last)) => *last,
            _ => {
                return ;
            },
        };
        let handle = link_in(&mut self.nodes, &mut self.start, &mut self.tail, first, last, element);
        self.im_map.insert(key_start, Some(handle));
        if range.start < range.end {
            self.im_map.add_void(Void::from(key_start + 1..key_end + 1));
        }
        proof {
            self.chain@ = spliced_chain(chain, s, e, handle);
            lemma_splice_links(nodes, chain, old(self).start, old(self).tail, self.nodes@, s, e);
        }
    }
}

/// Adds a node that holds `element` to the store and links it in between
/// the node in front of `first` and the node behind `last`. Where `first`
/// has no node in front, the new node becomes the first of the list; where
/// `last` has none behind, it becomes the last.
fn link_in<T>(
    nodes: &mut Vec<Node<T>>,
    start: &mut Link,
    tail: &mut Link,
    first: usize,
    last: usize,
    element: T,
) -> (handle: usize)
    requires
        first < old(nodes)@.len(),
        last < old(nodes)@.len(),
        old(nodes)@[first as int].prev matches Some(before) ==> before < old(nodes)@.len(),
        old(nodes)@[last as int].next matches Some(behind) ==> behind < old(nodes)@.len(),
    ensures
        handle == old(nodes)@.len(),
        final(nodes)@.len() < usize::MAX + 1,
        final(nodes)@[handle as int].value == element,
        relinked(
            old(nodes)@,
            final(nodes)@,
            old(nodes)@[first as int].prev,
            old(nodes)@[last as int].next,
        ),
        *final(start) == if old(nodes)@[first as int].prev is Some {
            *old(start)
        } else {
            Some(handle)
        },
        *final(tail) == if old(nodes)@[last as int].next is Some {
            *old(tail)
        } else {
            Some(handle)
        },
{
    let prev = nodes[first].prev;
    let next = nodes[last].next;
    let handle = nodes.len();
    let mut node = Node::new(element);
    node.prev = prev;
    node.next = next;
    nodes.push(node);
    match prev {
        Some(before) => {
            nodes[before].next = Some(handle);
        },
        None => {
            *start = Some(handle);
        },
    }
    match next {
        Some(behind) => {
            nodes[behind].prev = Some(handle);
        },
        None => {
            *tail = Some(handle);
        },
    }
    assert(nodes@.len() == nodes.len());
    handle
}

/// A walk over the items of a list, from the first to the last.
pub struct LinkedHashListIterator<'a, T> {
    list: &'a LinkedHashList<T>,
    current: Link,
    position: Ghost<int>,
}

impl<'a, T> LinkedHashListIterator<'a, T> {
    /// The walk stands at a node of a consistent list, or behind the last.
    pub closed spec fn wf(&self) -> bool {
        &&& self.list.wf()
        &&& 0 <= self.position@ <= self.list.chain@.len()
        &&& self.current == (if self.position@ < self.list.chain@.len() {
            Some(self.list.chain@[self.position@])
        } else {
            None
        })
    }

    /// The items still to come, in order.
    pub closed spec fn remaining(&self) -> Seq<T> {
        self.list@.subrange(self.position@, self.list@.len() as int)
    }

    /// Hands out the next item, or nothing at the end.
    pub fn next(&mut self) -> (item: Option<&'a T>)
        requires
            old(self).wf(),
        ensures
            final(self).wf(),
            match item {
                Some(value) => {
                    &&& old(self).remaining().len() > 0
                    &&& *value == old(self).remaining()[0]
                    &&& final(self).remaining() == old(self).remaining().drop_first()
                },
                None => {
                    &&& old(self).remaining().len() == 0
                    &&& final(self).remaining() == old(self).remaining()
                },
            },
    {
        match self.current {
            Some(handle) => {
                assert(linked_at(self.list.nodes@, self.list.chain@, self.position@));
                let node = &self.list.nodes[handle];
                self.current = node.next;
                proof {
                    self.position@ = self.position@ + 1;
                    assert(self.remaining() =~= old(self).remaining().drop_first());
                }
                Some(&node.value)
            },
            None => None,
        }
    }
}

} // verus!
