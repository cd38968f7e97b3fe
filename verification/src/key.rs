//! Keys and their order. Texts are keys, in the order of `str`: text
//! against text, character by character. Numbers are keys in their own
//! order.

use vstd::prelude::*;
use vstd::std_specs::iter::IteratorSpec;

verus! {

broadcast use vstd::string::group_string_axioms;

/// Whether `a` comes before `b`: at the first place where the two differ,
/// `a` has the smaller character, or `a` ends there and `b` goes on. This
/// is the order that the standard library gives to `str`.
pub open spec fn precedes(a: Seq<char>, b: Seq<char>) -> bool
    decreases a.len(),
{
    if b.len() == 0 {
        false
    } else if a.len() == 0 {
        true
    } else if a[0] != b[0] {
        a[0] < b[0]
    } else {
        precedes(a.skip(1), b.skip(1))
    }
}

/// How one key stands to another.
#[derive(Debug, PartialEq, Eq, Clone, Copy, Structural)]
pub enum Place {
    Before,
    Same,
    After,
}

/// No key comes before itself.
pub proof fn lemma_precedes_irreflexive(a: Seq<char>)
    ensures
        !precedes(a, a),
    decreases a.len(),
{
    if a.len() > 0 {
        lemma_precedes_irreflexive(a.skip(1));
    }
}

/// Of two different keys exactly one comes before the other.
pub proof fn lemma_precedes_total(a: Seq<char>, b: Seq<char>)
    ensures
        a == b || precedes(a, b) || precedes(b, a),
        !(precedes(a, b) && precedes(b, a)),
    decreases a.len(),
{
    if a.len() == 0 || b.len() == 0 {
        if a.len() == 0 && b.len() == 0 {
            assert(a =~= b);
        }
    } else if a[0] == b[0] {
        lemma_precedes_total(a.skip(1), b.skip(1));
        if a.skip(1) == b.skip(1) {
            assert(a =~= seq![a[0]] + a.skip(1));
            assert(b =~= seq![b[0]] + b.skip(1));
        }
    }
}

/// What comes before a key comes before all that the key comes before.
pub proof fn lemma_precedes_transitive(a: Seq<char>, b: Seq<char>, c: Seq<char>)
    requires
        precedes(a, b),
        precedes(b, c),
    ensures
        precedes(a, c),
    decreases a.len(),
{
    if a.len() > 0 && a[0] == b[0] && b[0] == c[0] {
        lemma_precedes_transitive(a.skip(1), b.skip(1), c.skip(1));
    }
}

/// What the keys of a container must offer: a model, by which a key is
/// known in contracts, and a strict total order of the models, which the
/// keys can be asked for.
pub trait Key: Sized {
    /// What a key is in contracts. Keys with one model are one key.
    type Model;

    /// The model of the key.
    spec fn model(&self) -> Self::Model;

    /// Whether `a` comes before `b`.
    spec fn before(a: Self::Model, b: Self::Model) -> bool;

    /// No key comes before itself.
    proof fn lemma_irreflexive(a: Self::Model)
        ensures
            !Self::before(a, a),
    ;

    /// Of two different keys one comes before the other.
    proof fn lemma_total(a: Self::Model, b: Self::Model)
        ensures
            a == b || Self::before(a, b) || Self::before(b, a),
    ;

    /// What comes before a key comes before all that the key comes before.
    proof fn lemma_transitive(a: Self::Model, b: Self::Model, c: Self::Model)
        requires
            Self::before(a, b),
            Self::before(b, c),
        ensures
            Self::before(a, c),
    ;

    /// How the key stands to `other`.
    fn place(&self, other: &Self) -> (r: Place)
        ensures
            r is Before <==> Self::before(self.model(), other.model()),
            r is Same <==> self.model() == other.model(),
            r is After <==> Self::before(other.model(), self.model()),
    ;
}

/// Texts are keys in the order of `str`.
impl<'a> Key for &'a str {
    type Model = Seq<char>;

    open spec fn model(&self) -> Seq<char> {
        self@
    }

    open spec fn before(a: Seq<char>, b: Seq<char>) -> bool {
        precedes(a, b)
    }

    proof fn lemma_irreflexive(a: Seq<char>) {
        lemma_precedes_irreflexive(a);
    }

    proof fn lemma_total(a: Seq<char>, b: Seq<char>) {
        lemma_precedes_total(a, b);
    }

    proof fn lemma_transitive(a: Seq<char>, b: Seq<char>, c: Seq<char>) {
        lemma_precedes_transitive(a, b, c);
    }

    fn place(&self, other: &Self) -> (r: Place) {
        place(*self, *other)
    }
}

/// Numbers are keys in their own order.
impl Key for u64 {
    type Model = u64;

    open spec fn model(&self) -> u64 {
        *self
    }

    open spec fn before(a: u64, b: u64) -> bool {
        a < b
    }

    proof fn lemma_irreflexive(a: u64) {
    }

    proof fn lemma_total(a: u64, b: u64) {
    }

    proof fn lemma_transitive(a: u64, b: u64, c: u64) {
    }

    fn place(&self, other: &Self) -> (r: Place) {
        if *self < *other {
            Place::Before
        } else if *self == *other {
            Place::Same
        } else {
            Place::After
        }
    }
}

/// How `a` stands to `b` in the order of texts.
pub fn place(a: &str, b: &str) -> (r: Place)
    ensures
        r is Before <==> precedes(a@, b@),
        r is Same <==> a@ == b@,
        r is After <==> precedes(b@, a@),
{
    proof {
        lemma_precedes_total(a@, b@);
        lemma_precedes_irreflexive(a@);
    }
    let mut left = a.chars();
    let mut right = b.chars();
    loop
        invariant
            left.obeys_prophetic_iter_laws(),
            right.obeys_prophetic_iter_laws(),
            left.decrease() is Some,
            precedes(a@, b@) == precedes(left.remaining(), right.remaining()),
            precedes(b@, a@) == precedes(right.remaining(), left.remaining()),
            (a@ == b@) == (left.remaining() == right.remaining()),
        decreases left.decrease()->0,
    {
        let ghost l = left.remaining();
        let ghost r = right.remaining();
        let x = left.next();
        let y = right.next();
        match (x, y) {
            (None, None) => {
                assert(l =~= r);
                return Place::Same;
            },
            (None, Some(_)) => {
                return Place::Before;
            },
            (Some(_), None) => {
                return Place::After;
            },
            (Some(p), Some(q)) => {
                if p < q {
                    return Place::Before;
                } else if q < p {
                    return Place::After;
                }
                assert(l =~= seq![p] + l.skip(1));
                assert(r =~= seq![q] + r.skip(1));
                assert(l.skip(1) == r.skip(1) ==> l =~= r);
            },
        }
    }
}

} // verus!
