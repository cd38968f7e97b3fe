//! The container.

use crate::binary64::numeral_bits_of;
use crate::expr_ast::charset::contains_alphabetic;
use crate::expr_ast::node::{Node, NodeView, Tree};
use crate::expr_ast::parser::{parse_condition_spec, tokens, Parser};
use crate::expr_ast::token::op::OpKind;
use crate::iloc::Iloc;
use crate::iter::{Iter, Keys, Values};
use crate::key::{Key, Place};
use crate::matching::{
    bind, bindable, bound_clause, evaluable, lemma_clause_list, lemma_literal_list,
    lemma_tokens_wf, lemma_wf_numeral, selects, verdict,
};
use vstd::prelude::*;

verus! {

/// Whether the keys of `pairs` ascend strictly.
pub open spec fn ascending<K: Key, V>(pairs: Seq<(K::Model, V)>) -> bool {
    forall|i: int, j: int|
        0 <= i < j < pairs.len() ==> K::before((#[trigger] pairs[i]).0, (#[trigger] pairs[j]).0)
}

/// Whether `key` is the key of one of `pairs`.
pub open spec fn has_key<M, V>(pairs: Seq<(M, V)>, key: M) -> bool {
    exists|i: int| 0 <= i < pairs.len() && (#[trigger] pairs[i]).0 == key
}

/// A position at which `key` stands in `pairs`.
pub open spec fn slot<M, V>(pairs: Seq<(M, V)>, key: M) -> int {
    choose|i: int| 0 <= i < pairs.len() && (#[trigger] pairs[i]).0 == key
}

/// The map from the keys of `pairs` to their values.
pub open spec fn to_map<M, V>(pairs: Seq<(M, V)>) -> Map<M, V> {
    Map::new(|key: M| has_key(pairs, key), |key: M| pairs[slot(pairs, key)].1)
}

/// In an ascending sequence each key stands at one position only.
pub proof fn lemma_slot<K: Key, V>(pairs: Seq<(K::Model, V)>, i: int)
    requires
        ascending::<K, V>(pairs),
        0 <= i < pairs.len(),
    ensures
        has_key(pairs, pairs[i].0),
        slot(pairs, pairs[i].0) == i,
        to_map(pairs).contains_key(pairs[i].0),
        to_map(pairs)[pairs[i].0] == pairs[i].1,
{
    let j = slot(pairs, pairs[i].0);
    K::lemma_irreflexive(pairs[i].0);
    if j < i {
        assert(K::before(pairs[j].0, pairs[i].0));
    } else if i < j {
        assert(K::before(pairs[i].0, pairs[j].0));
    }
}

/// An ascending sequence of pairs is a finite map with as many entries.
pub proof fn lemma_to_map_len<K: Key, V>(pairs: Seq<(K::Model, V)>)
    requires
        ascending::<K, V>(pairs),
    ensures
        to_map(pairs).dom().finite(),
        to_map(pairs).dom().len() == pairs.len(),
    decreases pairs.len(),
{
    if pairs.len() == 0 {
        assert(to_map(pairs).dom() =~= Set::<K::Model>::empty());
    } else {
        let front = pairs.drop_last();
        let last = pairs.last();
        lemma_to_map_len::<K, V>(front);
        assert(!has_key(front, last.0)) by {
            if has_key(front, last.0) {
                let i = slot(front, last.0);
                assert(K::before(pairs[i].0, pairs[pairs.len() - 1].0));
                K::lemma_irreflexive(last.0);
            }
        }
        assert(to_map(pairs).dom() =~= to_map(front).dom().insert(last.0)) by {
            assert forall|k: K::Model| has_key(pairs, k) <==> (has_key(front, k) || k
                == last.0) by {
                if has_key(pairs, k) {
                    let i = slot(pairs, k);
                    if i < pairs.len() - 1 {
                        assert(front[i].0 == k);
                    }
                }
                if has_key(front, k) {
                    let i = slot(front, k);
                    assert(pairs[i].0 == k);
                }
                if k == last.0 {
                    assert(pairs[pairs.len() - 1].0 == k);
                }
            }
        }
    }
}

/// Putting a pair where its key belongs adds it to the map.
pub proof fn lemma_insert_pair<K: Key, V>(
    pairs: Seq<(K::Model, V)>,
    i: int,
    key: K::Model,
    value: V,
)
    requires
        ascending::<K, V>(pairs),
        0 <= i <= pairs.len(),
        forall|j: int| 0 <= j < i ==> K::before((#[trigger] pairs[j]).0, key),
        forall|j: int| i <= j < pairs.len() ==> K::before(key, (#[trigger] pairs[j]).0),
    ensures
        ascending::<K, V>(pairs.insert(i, (key, value))),
        !has_key(pairs, key),
        to_map(pairs.insert(i, (key, value))) == to_map(pairs).insert(key, value),
{
    let grown = pairs.insert(i, (key, value));
    K::lemma_irreflexive(key);
    assert forall|a: int, b: int| 0 <= a < b < grown.len() implies K::before(
        (#[trigger] grown[a]).0,
        (#[trigger] grown[b]).0,
    ) by {
        let x = if a < i { a } else { a - 1 };
        let y = if b < i { b } else { b - 1 };
        if a != i && b != i {
            assert(grown[a] == pairs[x] && grown[b] == pairs[y]);
        } else if a == i {
            assert(grown[b] == pairs[y]);
        } else {
            assert(grown[a] == pairs[x]);
        }
    }
    assert forall|k: K::Model| has_key(grown, k) <==> (has_key(pairs, k) || k == key) by {
        if has_key(grown, k) {
            let a = slot(grown, k);
            if a < i {
                assert(pairs[a].0 == k);
            } else if a > i {
                assert(pairs[a - 1].0 == k);
            }
        }
        if has_key(pairs, k) {
            let x = slot(pairs, k);
            if x < i {
                assert(grown[x].0 == k);
            } else {
                assert(grown[x + 1].0 == k);
            }
        }
        if k == key {
            assert(grown[i].0 == k);
        }
    }
    assert forall|k: K::Model| has_key(grown, k) implies #[trigger] to_map(grown)[k] == to_map(
        pairs,
    ).insert(key, value)[k] by {
        let a = slot(grown, k);
        lemma_slot::<K, V>(grown, a);
        if a < i {
            lemma_slot::<K, V>(pairs, a);
        } else if a > i {
            lemma_slot::<K, V>(pairs, a - 1);
        }
    }
    assert(to_map(grown) =~= to_map(pairs).insert(key, value));
}

/// Putting a new value beside a key that is there changes the map at that
/// key.
pub proof fn lemma_update_pair<K: Key, V>(pairs: Seq<(K::Model, V)>, i: int, value: V)
    requires
        ascending::<K, V>(pairs),
        0 <= i < pairs.len(),
    ensures
        ascending::<K, V>(pairs.update(i, (pairs[i].0, value))),
        to_map(pairs.update(i, (pairs[i].0, value))) == to_map(pairs).insert(pairs[i].0, value),
{
    let key = pairs[i].0;
    let changed = pairs.update(i, (key, value));
    assert forall|a: int, b: int| 0 <= a < b < changed.len() implies K::before(
        (#[trigger] changed[a]).0,
        (#[trigger] changed[b]).0,
    ) by {
        assert(changed[a].0 == pairs[a].0 && changed[b].0 == pairs[b].0);
    }
    assert forall|k: K::Model| has_key(changed, k) <==> has_key(pairs, k) by {
        if has_key(changed, k) {
            let a = slot(changed, k);
            assert(pairs[a].0 == k);
        }
        if has_key(pairs, k) {
            let a = slot(pairs, k);
            assert(changed[a].0 == k);
        }
    }
    lemma_slot::<K, V>(pairs, i);
    assert forall|k: K::Model| has_key(changed, k) implies #[trigger] to_map(changed)[k]
        == to_map(pairs).insert(key, value)[k] by {
        let a = slot(changed, k);
        lemma_slot::<K, V>(changed, a);
        lemma_slot::<K, V>(pairs, a);
    }
    assert(to_map(changed) =~= to_map(pairs).insert(key, value));
}

/// The entries of a container with each key as its model.
pub open spec fn pairs_of<K: Key, V>(entries: Seq<(K, V)>) -> Seq<(K::Model, V)> {
    Seq::new(entries.len(), |i: int| (entries[i].0.model(), entries[i].1))
}

/// The keys of `pairs` that come before `key`.
pub open spec fn keys_before<K: Key, V>(pairs: Seq<(K::Model, V)>, key: K::Model) -> Set<
    K::Model,
> {
    Set::new(|k: K::Model| has_key(pairs, k) && K::before(k, key))
}

/// In an ascending sequence the key at position `i` is the one with
/// exactly `i` keys before it: it is the `i`-th smallest, counted from 0.
pub proof fn lemma_rank<K: Key, V>(pairs: Seq<(K::Model, V)>, i: int)
    requires
        ascending::<K, V>(pairs),
        0 <= i < pairs.len(),
    ensures
        to_map(pairs).contains_key(pairs[i].0),
        to_map(pairs)[pairs[i].0] == pairs[i].1,
        keys_before::<K, V>(pairs, pairs[i].0).finite(),
        keys_before::<K, V>(pairs, pairs[i].0).len() == i,
{
    lemma_slot::<K, V>(pairs, i);
    let front = pairs.take(i);
    let key = pairs[i].0;
    assert(ascending::<K, V>(front)) by {
        assert forall|a: int, b: int| 0 <= a < b < front.len() implies K::before(
            (#[trigger] front[a]).0,
            (#[trigger] front[b]).0,
        ) by {
            assert(front[a] == pairs[a] && front[b] == pairs[b]);
        }
    }
    lemma_to_map_len::<K, V>(front);
    assert(keys_before::<K, V>(pairs, key) =~= to_map(front).dom()) by {
        assert forall|k: K::Model| has_key(pairs, k) && K::before(k, key) <==> has_key(
            front,
            k,
        ) by {
            if has_key(front, k) {
                let w = slot(front, k);
                assert(pairs[w].0 == k);
                assert(K::before(pairs[w].0, pairs[i].0));
            }
            if has_key(pairs, k) && K::before(k, key) {
                let w = slot(pairs, k);
                if w == i {
                    K::lemma_irreflexive(key);
                } else if w > i {
                    assert(K::before(pairs[i].0, pairs[w].0));
                    K::lemma_transitive(key, k, key);
                    K::lemma_irreflexive(key);
                } else {
                    assert(front[w].0 == k);
                }
            }
        }
    }
}

/// A key of the first `i + 1` pairs is a key of the first `i` pairs or the
/// key of pair `i`.
pub proof fn lemma_has_key_take<M, V>(pairs: Seq<(M, V)>, i: int, key: M)
    requires
        0 <= i < pairs.len(),
    ensures
        has_key(pairs.take(i + 1), key) <==> has_key(pairs.take(i), key) || pairs[i].0 == key,
{
    let shorter = pairs.take(i);
    let longer = pairs.take(i + 1);
    if has_key(shorter, key) {
        let w = slot(shorter, key);
        assert(longer[w].0 == key);
    }
    if pairs[i].0 == key {
        assert(longer[i].0 == key);
    }
    if has_key(longer, key) {
        let w = slot(longer, key);
        if w < i {
            assert(shorter[w].0 == key);
        }
    }
}

/// Whether `chosen` holds exactly the keys of `pairs` that `statement`
/// selects.
pub open spec fn picked<V>(
    chosen: Map<Seq<char>, V>,
    pairs: Seq<(Seq<char>, V)>,
    statement: Seq<char>,
) -> bool {
    forall|key: Seq<char>| #[trigger]
        chosen.contains_key(key) <==> has_key(pairs, key) && selects(statement, key)
}

/// The map that comes of putting `entries` into an empty map one after
/// another: of two entries with one key the later one stays.
pub open spec fn collected<K: Key, V>(entries: Seq<(K, V)>) -> Map<K::Model, V>
    decreases entries.len(),
{
    if entries.len() == 0 {
        Map::empty()
    } else {
        collected(entries.drop_last()).insert(entries.last().0.model(), entries.last().1)
    }
}

/// Looks `key` up in `entries` by bisection. Returns the position at
/// which the key stands, or at which it would have to be put, and whether
/// it is there.
fn find<K: Key, V>(entries: &Vec<(K, V)>, key: &K) -> (r: (usize, bool))
    requires
        ascending::<K, V>(pairs_of(entries@)),
    ensures
        r.0 <= entries@.len(),
        r.1 ==> r.0 < entries@.len() && pairs_of(entries@)[r.0 as int].0 == key.model(),
        forall|j: int| 0 <= j < r.0 ==> K::before((#[trigger] pairs_of(entries@)[j]).0, key.model()),
        forall|j: int|
            r.0 + (if r.1 { 1int } else { 0int }) <= j < entries@.len() ==> K::before(
                key.model(),
                (#[trigger] pairs_of(entries@)[j]).0,
            ),
{
    let ghost pairs = pairs_of(entries@);
    let mut low: usize = 0;
    let mut high: usize = entries.len();
    while low < high
        invariant
            pairs == pairs_of(entries@),
            ascending::<K, V>(pairs),
            low <= high <= pairs.len(),
            forall|j: int| 0 <= j < low ==> K::before((#[trigger] pairs[j]).0, key.model()),
            forall|j: int| high <= j < pairs.len() ==> K::before(key.model(), (#[trigger] pairs[j]).0),
        decreases high - low,
    {
        let middle = low + (high - low) / 2;
        let here = entries[middle].0.place(key);
        assert(pairs[middle as int].0 == entries@[middle as int].0.model());
        match here {
            Place::Before => {
                proof {
                    assert forall|j: int| 0 <= j < middle + 1 implies K::before(
                        (#[trigger] pairs[j]).0,
                        key.model(),
                    ) by {
                        if j < middle {
                            K::lemma_transitive(pairs[j].0, pairs[middle as int].0, key.model());
                        }
                    }
                }
                low = middle + 1;
            },
            Place::After => {
                proof {
                    assert forall|j: int| middle <= j < pairs.len() implies K::before(
                        key.model(),
                        (#[trigger] pairs[j]).0,
                    ) by {
                        if j > middle {
                            K::lemma_transitive(key.model(), pairs[middle as int].0, pairs[j].0);
                        }
                    }
                }
                high = middle;
            },
            Place::Same => {
                proof {
                    assert forall|j: int| 0 <= j < middle implies K::before(
                        (#[trigger] pairs[j]).0,
                        key.model(),
                    ) by {
                        assert(K::before(pairs[j].0, pairs[middle as int].0));
                    }
                    assert forall|j: int| middle + 1 <= j < pairs.len() implies K::before(
                        key.model(),
                        (#[trigger] pairs[j]).0,
                    ) by {
                        assert(K::before(pairs[middle as int].0, pairs[j].0));
                    }
                }
                return (middle, true);
            },
        }
    }
    (low, false)
}

/// The conversion of an array into a `Vec` by the standard library's
/// `From`. Trusted: the vector holds the elements of the array in their
/// order.
#[verifier::external_body]
fn array_into_vec<T, const N: usize>(array: [T; N]) -> (v: Vec<T>)
    ensures
        v@ == array@,
{
    Vec::from(array)
}

/// `Vec::capacity` of the standard library. Trusted: a vector has room
/// for at least the elements that it holds. How much more room it has is
/// left open.
#[verifier::external_body]
fn room<T>(v: &Vec<T>) -> (n: usize)
    ensures
        n >= v@.len(),
{
    v.capacity()
}

/// A container of values under keys. Besides lookup by key it gives
/// the entries in ascending order of their keys, the value at a rank of
/// that order, and the entries whose keys satisfy a condition. The entries
/// are held in ascending order of their keys, each key once.
#[derive(Debug)]
pub struct ExtendedHashMap<K: Key, V> {
    entries: Vec<(K, V)>,
}

impl<K: Key, V> View for ExtendedHashMap<K, V> {
    type V = Map<K::Model, V>;

    open spec fn view(&self) -> Map<K::Model, V> {
        to_map(self.pairs())
    }
}

impl<K: Key, V> ExtendedHashMap<K, V> {
    /// The entries, in ascending order of their keys.
    pub closed spec fn pairs(&self) -> Seq<(K::Model, V)> {
        pairs_of(self.entries@)
    }

    /// The keys ascend strictly, so that no key occurs twice.
    #[verifier::type_invariant]
    pub closed spec fn wf(&self) -> bool {
        ascending::<K, V>(self.pairs())
    }

    /// The entries of a container are its map, in ascending order of the
    /// keys: the entry at position `i` has the `i`-th smallest key.
    pub proof fn lemma_pairs(&self, i: int)
        requires
            self.wf(),
            0 <= i < self.pairs().len(),
        ensures
            ascending::<K, V>(self.pairs()),
            self@.dom().finite(),
            self@.len() == self.pairs().len(),
            self@.contains_key(self.pairs()[i].0),
            self@[self.pairs()[i].0] == self.pairs()[i].1,
            keys_before::<K, V>(self.pairs(), self.pairs()[i].0).len() == i,
            forall|key: K::Model| self@.contains_key(key) <==> has_key(self.pairs(), key),
    {
        lemma_to_map_len::<K, V>(self.pairs());
        lemma_rank::<K, V>(self.pairs(), i);
    }

    /// No key has a rank at or beyond the number of entries: each key of
    /// a container has fewer keys before it than the container holds, so
    /// that a rank from that number on is the rank of nothing.
    pub proof fn lemma_rank_in_range(&self, key: K::Model)
        requires
            self.wf(),
            self@.contains_key(key),
        ensures
            keys_before::<K, V>(self.pairs(), key).finite(),
            keys_before::<K, V>(self.pairs(), key).len() < self@.len(),
    {
        let i = slot(self.pairs(), key);
        lemma_to_map_len::<K, V>(self.pairs());
        lemma_rank::<K, V>(self.pairs(), i);
    }

    /// An empty container.
    pub fn new() -> (r: Self)
        ensures
            r@ == Map::<K::Model, V>::empty(),
            r.pairs().len() == 0,
    {
        let r = ExtendedHashMap { entries: Vec::new() };
        assert(r@ =~= Map::<K::Model, V>::empty());
        r
    }

    /// Puts `v` under `k`. Returns the value that was under `k` before,
    /// if there was one.
    pub fn insert(&mut self, k: K, v: V) -> (r: Option<V>)
        ensures
            final(self)@ == old(self)@.insert(k.model(), v),
            r == if old(self)@.contains_key(k.model()) {
                Some(old(self)@[k.model()])
            } else {
                None
            },
    {
        proof {
            use_type_invariant(&*self);
        }
        let ghost before = self.pairs();
        let mut entries: Vec<(K, V)> = Vec::new();
        core::mem::swap(&mut entries, &mut self.entries);
        assert(before =~= pairs_of(entries@));
        let (i, found) = find(&entries, &k);
        if found {
            let mut value = v;
            core::mem::swap(&mut entries[i].1, &mut value);
            proof {
                assert(pairs_of(entries@) =~= before.update(i as int, (before[i as int].0, v)));
                lemma_update_pair::<K, V>(before, i as int, v);
                lemma_slot::<K, V>(before, i as int);
            }
            self.entries = entries;
            Some(value)
        } else {
            proof {
                lemma_insert_pair::<K, V>(before, i as int, k.model(), v);
            }
            entries.insert(i, (k, v));
            proof {
                assert(pairs_of(entries@) =~= before.insert(i as int, (k.model(), v)));
            }
            self.entries = entries;
            None
        }
    }

    /// The room that the container has for entries, which is at least the
    /// number of entries that it holds.
    pub fn capacity(&self) -> (n: usize)
        ensures
            n >= self@.len(),
    {
        proof {
            use_type_invariant(self);
            lemma_to_map_len::<K, V>(self.pairs());
        }
        room(&self.entries)
    }

    /// The number of entries.
    pub fn len(&self) -> (n: usize)
        ensures
            n == self@.len(),
            n == self.pairs().len(),
    {
        proof {
            use_type_invariant(self);
            lemma_to_map_len::<K, V>(self.pairs());
        }
        self.entries.len()
    }

    /// Whether the container holds no entry.
    pub fn is_empty(&self) -> (b: bool)
        ensures
            b == (self@.len() == 0),
    {
        self.len() == 0
    }

    /// Removes all entries.
    pub fn clear(&mut self)
        ensures
            final(self)@ == Map::<K::Model, V>::empty(),
            final(self).pairs().len() == 0,
    {
        let mut entries: Vec<(K, V)> = Vec::new();
        core::mem::swap(&mut entries, &mut self.entries);
        entries.clear();
        self.entries = entries;
        assert(self@ =~= Map::<K::Model, V>::empty());
    }

    /// The verdict of `tree`: whether its first clause holds. Both sides
    /// of the clause are read as binary64 numbers and compared. A tree
    /// that is empty, or begins with a literal, gives `false`.
    pub fn tree_state(&self, tree: &Tree) -> (r: bool)
        requires
            evaluable(tree@),
        ensures
            r == verdict(tree@),
    {
        if tree.root.len() == 0 {
            return false;
        }
        assert(tree@[0] == tree.root@[0]@);
        match &tree.root[0] {
            Node::BinOp(bin_op) => {
                let lhs = numeral_bits_of(bin_op.lhs.text()).unwrap();
                let rhs = numeral_bits_of(bin_op.rhs.text()).unwrap();
                match bin_op.op {
                    OpKind::Eq => lhs == rhs,
                    OpKind::Ne => lhs != rhs,
                    OpKind::Ge => lhs >= rhs,
                    OpKind::Gt => lhs > rhs,
                    OpKind::Le => lhs <= rhs,
                    OpKind::Lt => lhs < rhs,
                }
            },
            _ => false,
        }
    }

    /// Binds the key `rhs` to the condition `lhs`: the left side of each
    /// clause becomes the element of the key at the same position.
    pub fn mix_trees(&self, lhs: &mut Tree, rhs: Tree)
        requires
            bindable(old(lhs)@, rhs@),
        ensures
            final(lhs)@ == bind(old(lhs)@, rhs@),
    {
        let mut rhs = rhs;
        let ghost condition = lhs@;
        let ghost key = rhs@;
        let n = lhs.root.len();
        let mut i: usize = 0;
        while i < n
            invariant
                i <= n,
                n == condition.len(),
                lhs@.len() == n,
                rhs@.len() == key.len(),
                bindable(condition, key),
                forall|j: int| 0 <= j < i ==> #[trigger] lhs@[j] == bound_clause(condition, key, j),
                forall|j: int| i <= j < n ==> #[trigger] lhs@[j] == condition[j],
                forall|j: int| i <= j < key.len() ==> #[trigger] rhs@[j] == key[j],
            decreases n - i,
        {
            assert(lhs@[i as int] == lhs.root@[i as int]@);
            assert(rhs@[i as int] == rhs.root@[i as int]@);
            assert(condition[i as int] is BinOp && key[i as int] is Literal);
            let ghost clauses = lhs.root@;
            let ghost elements = rhs.root@;
            assert forall|j: int| 0 <= j < n implies #[trigger] clauses[j]@ == lhs@[j] by {}
            assert forall|j: int| 0 <= j < key.len() implies #[trigger] elements[j]@ == rhs@[j] by {}
            match &mut lhs.root[i] {
                Node::BinOp(bin_op) => {
                    match &mut rhs.root[i] {
                        Node::Literal(lit) => {
                            core::mem::swap(&mut bin_op.lhs, lit);
                        },
                        _ => {},
                    }
                },
                _ => {},
            }
            proof {
                assert(lhs.root@.len() == n);
                assert(rhs.root@.len() == key.len());
                assert forall|j: int| 0 <= j < n && j != i implies lhs.root@[j] == clauses[j] by {}
                assert forall|j: int| 0 <= j < key.len() && j != i implies rhs.root@[j]
                    == elements[j] by {}
                assert(lhs.root@[i as int]@ == bound_clause(condition, key, i as int));
                assert forall|j: int| 0 <= j < i + 1 implies #[trigger] lhs@[j] == bound_clause(
                    condition,
                    key,
                    j,
                ) by {
                    assert(lhs@[j] == lhs.root@[j]@);
                }
                assert forall|j: int| i + 1 <= j < n implies #[trigger] lhs@[j] == condition[j] by {
                    assert(lhs@[j] == lhs.root@[j]@);
                }
                assert forall|j: int| i + 1 <= j < key.len() implies #[trigger] rhs@[j]
                    == key[j] by {
                    assert(rhs@[j] == rhs.root@[j]@);
                }
            }
            i = i + 1;
        }
        assert(lhs@ =~= bind(condition, key));
    }

    /// The entries in ascending order of their keys.
    pub fn iter(&self) -> (r: Iter<'_, K, V>)
        ensures
            r.remaining() == self.pairs(),
    {
        Iter::over(&self.entries)
    }

    /// The values in ascending order of their keys.
    pub fn values(&self) -> (r: Values<'_, K, V>)
        ensures
            r.remaining() == self.pairs(),
    {
        Values::over(self.iter())
    }

    /// The keys in ascending order.
    pub fn keys(&self) -> (r: Keys<'_, K, V>)
        ensures
            r.remaining() == self.pairs(),
    {
        Keys::over(self.iter())
    }

    /// The positional accessor of the container.
    pub fn iloc(&self) -> (r: Iloc<'_, K, V>)
        ensures
            r.source() == *self,
    {
        Iloc::of(self)
    }

    /// The value at position `index` of the ascending order.
    pub(crate) fn at(&self, index: usize) -> (r: Option<&V>)
        ensures
            self@.len() == self.pairs().len(),
            match r {
                Some(value) => index < self.pairs().len() && *value == self.pairs()[index as int].1,
                None => index >= self.pairs().len(),
            },
    {
        proof {
            use_type_invariant(self);
            lemma_to_map_len::<K, V>(self.pairs());
        }
        if index < self.entries.len() {
            Some(&self.entries[index].1)
        } else {
            None
        }
    }

    /// The value under `key`, if there is one.
    pub fn get(&self, key: &K) -> (r: Option<&V>)
        ensures
            match r {
                Some(v) => self@.contains_key(key.model()) && *v == self@[key.model()],
                None => !self@.contains_key(key.model()),
            },
    {
        proof {
            use_type_invariant(self);
        }
        let ghost pairs = self.pairs();
        let (i, found) = find(&self.entries, key);
        if found {
            proof {
                lemma_slot::<K, V>(pairs, i as int);
            }
            Some(&self.entries[i].1)
        } else {
            proof {
                if has_key(pairs, key.model()) {
                    let j = slot(pairs, key.model());
                    K::lemma_irreflexive(key.model());
                }
            }
            None
        }
    }

    /// The value under `key`, which must be there.
    pub fn index(&self, key: &K) -> (v: &V)
        requires
            self@.contains_key(key.model()),
        ensures
            *v == self@[key.model()],
    {
        self.get(key).unwrap()
    }

    /// A container with the given entries. Where a key occurs twice, the
    /// later entry stays.
    pub fn from<const N: usize>(entries: [(K, V); N]) -> (r: Self)
        ensures
            r@ == collected(entries@),
    {
        let items = array_into_vec(entries);
        let mut r = ExtendedHashMap::new();
        let ghost all = items@;
        for item in it: items
            invariant
                it.seq() == all,
                r@ == collected(all.take(it.index() as int)),
        {
            proof {
                let i = it.index() as int;
                assert(all.take(i + 1).drop_last() =~= all.take(i));
                assert(all.take(i + 1).last() == item);
            }
            let (key, value) = item;
            r.insert(key, value);
        }
        assert(all.take(all.len() as int) =~= all);
        r
    }
}

impl<'a, V: Clone> ExtendedHashMap<&'a str, V> {
    /// The entries whose keys the condition `statement` selects, with
    /// clones of their values. Of a condition with several clauses the
    /// first alone is applied, to the first element of a key; the others
    /// fix the arity that a key must have. A statement that is no
    /// condition selects nothing.
    pub fn ploc(&self, statement: &str) -> (r: ExtendedHashMap<&'a str, V>)
        ensures
            forall|key: Seq<char>|
                r@.contains_key(key) <==> self@.contains_key(key) && selects(statement@, key),
            forall|key: Seq<char>| #[trigger]
                r@.contains_key(key) ==> self@.contains_key(key) && cloned(self@[key], r@[key]),
    {
        let mut parser = Parser::new();
        let mut result = ExtendedHashMap::new();

        let mut tree = match parser.parse_condition(statement) {
            Ok(tree) => tree,
            Err(_) => {
                return result;
            },
        };
        let ghost condition = tree@;
        let ghost pairs = self.pairs();
        proof {
            use_type_invariant(self);
            lemma_tokens_wf(statement@);
            lemma_clause_list(tokens(statement@));
            assert(pairs.take(0) =~= Seq::empty());
        }

        let n = self.entries.len();
        let mut i: usize = 0;
        while i < n
            invariant
                i <= n,
                n == self.entries@.len(),
                pairs == self.pairs(),
                ascending::<&'a str, V>(pairs),
                parse_condition_spec(statement@) == Some(condition),
                tree@.len() == condition.len(),
                forall|j: int|
                    0 <= j < condition.len() ==> ((#[trigger] condition[j]) matches NodeView::BinOp(
                        clause,
                    ) && clause.rhs.wf()),
                forall|j: int|
                    0 <= j < condition.len() ==> ((#[trigger] tree@[j]) matches NodeView::BinOp(
                        clause,
                    ) && clause.op == condition[j]->BinOp_0.op && clause.rhs
                        == condition[j]->BinOp_0.rhs),
                picked(result@, pairs.take(i as int), statement@),
                forall|key: Seq<char>| #[trigger]
                    result@.contains_key(key) ==> self@.contains_key(key) && cloned(
                        self@[key],
                        result@[key],
                    ),
            decreases n - i,
        {
            let key: &'a str = self.entries[i].0;
            let ghost chosen = result@;
            let mut take = false;
            if !contains_alphabetic(key) {
                match parser.parse(key) {
                    Ok(key_tree) => {
                        if tree.len() == key_tree.len() {
                            let ghost literals = key_tree@;
                            let ghost clauses = tree@;
                            proof {
                                lemma_tokens_wf(key@);
                                lemma_literal_list(tokens(key@));
                                assert(bindable(clauses, literals));
                            }
                            self.mix_trees(&mut tree, key_tree);
                            proof {
                                assert(tree@ =~= bind(condition, literals));
                                if tree@.len() > 0 {
                                    lemma_wf_numeral(literals[0]->Literal_0);
                                    lemma_wf_numeral(condition[0]->BinOp_0.rhs);
                                }
                            }
                            take = self.tree_state(&tree);
                        }
                    },
                    Err(_) => {},
                }
            }
            assert(take == selects(statement@, key@));
            if take {
                let value = self.entries[i].1.clone();
                result.insert(key, value);
                assert(result@ == chosen.insert(key@, value));
                assert(cloned(self.entries@[i as int].1, value));
            }
            proof {
                lemma_slot::<&'a str, V>(pairs, i as int);
                assert(pairs[i as int] == (key@, self.entries@[i as int].1));
                assert(self@[key@] == self.entries@[i as int].1);
                assert forall|k: Seq<char>| #[trigger]
                    result@.contains_key(k) <==> has_key(pairs.take(i + 1), k) && selects(
                        statement@,
                        k,
                    ) by {
                    lemma_has_key_take(pairs, i as int, k);
                    assert(chosen.contains_key(k) <==> has_key(pairs.take(i as int), k) && selects(
                        statement@,
                        k,
                    ));
                    if take {
                        assert(result@.contains_key(k) <==> chosen.contains_key(k) || k == key@);
                    } else {
                        assert(result@ == chosen);
                    }
                }
                assert forall|k: Seq<char>| #[trigger]
                    result@.contains_key(k) implies self@.contains_key(k) && cloned(
                    self@[k],
                    result@[k],
                ) by {
                    if take && k == key@ {
                    } else {
                        assert(chosen.contains_key(k));
                        assert(result@[k] == chosen[k]);
                    }
                }
            }
            i = i + 1;
        }
        proof {
            assert(pairs.take(n as int) =~= pairs);
            assert forall|key: Seq<char>|
                result@.contains_key(key) <==> self@.contains_key(key) && selects(
                    statement@,
                    key,
                ) by {
                assert(self@.contains_key(key) <==> has_key(pairs, key));
                assert(result@.contains_key(key) <==> has_key(pairs, key) && selects(
                    statement@,
                    key,
                ));
            }
        }
        result
    }
}

impl<K: Key, V> Default for ExtendedHashMap<K, V> {
    fn default() -> (r: Self)
        ensures
            r@ == Map::<K::Model, V>::empty(),
    {
        ExtendedHashMap::new()
    }
}

} // verus!
