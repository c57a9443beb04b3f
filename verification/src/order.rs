//! Three-way comparison results and the lexicographic order on sequences.

use vstd::prelude::*;

verus! {

/// The outcome of comparing a first value with a second.
#[derive(Debug, Clone, Copy, PartialEq, Eq, Structural)]
pub enum Rank {
    /// The first value comes before the second.
    Less,
    /// Neither comes before the other.
    Equal,
    /// The first value comes after the second.
    Greater,
}

impl Rank {
    /// The outcome with the two values exchanged.
    pub open spec fn reversed(self) -> Rank {
        match self {
            Rank::Less => Rank::Greater,
            Rank::Equal => Rank::Equal,
            Rank::Greater => Rank::Less,
        }
    }

    /// This outcome where it decides, `next` where it is `Equal`.
    pub open spec fn or(self, next: Rank) -> Rank {
        if self == Rank::Equal {
            next
        } else {
            self
        }
    }

    /// Computes the outcome with the two values exchanged.
    pub fn reverse(self) -> (r: Rank)
        ensures
            r == self.reversed(),
    {
        match self {
            Rank::Less => Rank::Greater,
            Rank::Equal => Rank::Equal,
            Rank::Greater => Rank::Less,
        }
    }

    /// Tells whether the outcome is `Equal`.
    pub fn is_equal(self) -> (r: bool)
        ensures
            r == (self == Rank::Equal),
    {
        match self {
            Rank::Equal => true,
            _ => false,
        }
    }

    /// Tells whether the outcome is `Less`.
    pub fn is_less(self) -> (r: bool)
        ensures
            r == (self == Rank::Less),
    {
        match self {
            Rank::Less => true,
            _ => false,
        }
    }
}

/// What transitivity asks of the outcomes for (a, b), (b, c) and (a, c).
pub open spec fn chained(ab: Rank, bc: Rank, ac: Rank) -> bool {
    &&& ab != Rank::Greater && bc != Rank::Greater ==> ac != Rank::Greater
    &&& ab != Rank::Greater && bc != Rank::Greater && (ab == Rank::Less || bc == Rank::Less) ==> ac
        == Rank::Less
    &&& ab != Rank::Less && bc != Rank::Less ==> ac != Rank::Less
    &&& ab != Rank::Less && bc != Rank::Less && (ab == Rank::Greater || bc == Rank::Greater) ==> ac
        == Rank::Greater
}

/// The order of two integers.
pub open spec fn int_order(x: int, y: int) -> Rank {
    if x < y {
        Rank::Less
    } else if x > y {
        Rank::Greater
    } else {
        Rank::Equal
    }
}

/// The lexicographic order of two sequences: the first position where they
/// differ decides, and a proper prefix comes first.
pub open spec fn lex(a: Seq<int>, b: Seq<int>) -> Rank
    decreases a.len(),
{
    if a.len() == 0 {
        if b.len() == 0 {
            Rank::Equal
        } else {
            Rank::Less
        }
    } else if b.len() == 0 {
        Rank::Greater
    } else if a[0] != b[0] {
        int_order(a[0], b[0])
    } else {
        lex(a.skip(1), b.skip(1))
    }
}

/// The lexicographic order where an absent sequence comes before any present one.
pub open spec fn lex_option(a: Option<Seq<int>>, b: Option<Seq<int>>) -> Rank {
    match (a, b) {
        (None, None) => Rank::Equal,
        (None, Some(_)) => Rank::Less,
        (Some(_), None) => Rank::Greater,
        (Some(x), Some(y)) => lex(x, y),
    }
}

/// The bytes of a sequence as integers.
pub open spec fn ints(bytes: Seq<u8>) -> Seq<int> {
    Seq::new(bytes.len(), |i: int| bytes[i] as int)
}

/// The numbers of a sequence as integers.
pub open spec fn wide_ints(values: Seq<u128>) -> Seq<int> {
    Seq::new(values.len(), |i: int| values[i] as int)
}

/// Every sequence is equal to itself.
pub proof fn lemma_lex_reflexive(a: Seq<int>)
    ensures
        lex(a, a) == Rank::Equal,
    decreases a.len(),
{
    if a.len() > 0 {
        lemma_lex_reflexive(a.skip(1));
    }
}

/// Exchanging the two sequences reverses the outcome.
pub proof fn lemma_lex_antisymmetric(a: Seq<int>, b: Seq<int>)
    ensures
        lex(b, a) == lex(a, b).reversed(),
    decreases a.len(),
{
    if a.len() > 0 && b.len() > 0 && a[0] == b[0] {
        lemma_lex_antisymmetric(a.skip(1), b.skip(1));
    }
}

/// The lexicographic order is transitive.
pub proof fn lemma_lex_transitive(a: Seq<int>, b: Seq<int>, c: Seq<int>)
    ensures
        chained(lex(a, b), lex(b, c), lex(a, c)),
    decreases a.len(),
{
    if a.len() > 0 && b.len() > 0 && c.len() > 0 && a[0] == b[0] && b[0] == c[0] {
        lemma_lex_transitive(a.skip(1), b.skip(1), c.skip(1));
    }
}

/// Only equal sequences compare as equal.
pub proof fn lemma_lex_equal(a: Seq<int>, b: Seq<int>)
    ensures
        lex(a, b) == Rank::Equal <==> a == b,
    decreases a.len(),
{
    if a.len() > 0 && b.len() > 0 && a[0] == b[0] {
        lemma_lex_equal(a.skip(1), b.skip(1));
        if a.skip(1) == b.skip(1) {
            assert(a =~= seq![a[0]] + a.skip(1));
            assert(b =~= seq![b[0]] + b.skip(1));
        }
    } else if a.len() == 0 && b.len() == 0 {
        assert(a =~= b);
    }
    if a == b {
        lemma_lex_reflexive(a);
    }
}

/// Sequences that agree on their first `n` positions are ordered as their rests are.
pub proof fn lemma_lex_common_prefix(a: Seq<int>, b: Seq<int>, n: int)
    requires
        0 <= n <= a.len(),
        n <= b.len(),
        forall|k: int| 0 <= k < n ==> a[k] == b[k],
    ensures
        lex(a, b) == lex(a.skip(n), b.skip(n)),
    decreases n,
{
    if n == 0 {
        assert(a.skip(0) =~= a);
        assert(b.skip(0) =~= b);
    } else {
        lemma_lex_common_prefix(a, b, n - 1);
        let x = a.skip(n - 1);
        let y = b.skip(n - 1);
        assert(x[0] == y[0]);
        assert(x.skip(1) =~= a.skip(n));
        assert(y.skip(1) =~= b.skip(n));
    }
}

/// Orders two byte strings lexicographically.
pub fn compare_bytes(a: &[u8], b: &[u8]) -> (r: Rank)
    ensures
        r == lex(ints(a@), ints(b@)),
{
    let mut i: usize = 0;
    while i < a.len() && i < b.len()
        invariant
            i <= a.len(),
            i <= b.len(),
            forall|k: int| 0 <= k < i ==> a@[k] == b@[k],
        decreases a.len() - i,
    {
        if a[i] < b[i] {
            proof {
                lemma_lex_common_prefix(ints(a@), ints(b@), i as int);
            }
            return Rank::Less;
        }
        if a[i] > b[i] {
            proof {
                lemma_lex_common_prefix(ints(a@), ints(b@), i as int);
            }
            return Rank::Greater;
        }
        i += 1;
    }
    proof {
        lemma_lex_common_prefix(ints(a@), ints(b@), i as int);
    }
    if i < b.len() {
        Rank::Less
    } else if i < a.len() {
        Rank::Greater
    } else {
        Rank::Equal
    }
}

/// Orders two sequences of numbers lexicographically.
pub fn compare_numbers(a: &Vec<u128>, b: &Vec<u128>) -> (r: Rank)
    ensures
        r == lex(wide_ints(a@), wide_ints(b@)),
{
    let mut i: usize = 0;
    while i < a.len() && i < b.len()
        invariant
            i <= a.len(),
            i <= b.len(),
            forall|k: int| 0 <= k < i ==> a@[k] == b@[k],
        decreases a.len() - i,
    {
        if a[i] < b[i] {
            proof {
                lemma_lex_common_prefix(wide_ints(a@), wide_ints(b@), i as int);
            }
            return Rank::Less;
        }
        if a[i] > b[i] {
            proof {
                lemma_lex_common_prefix(wide_ints(a@), wide_ints(b@), i as int);
            }
            return Rank::Greater;
        }
        i += 1;
    }
    proof {
        lemma_lex_common_prefix(wide_ints(a@), wide_ints(b@), i as int);
    }
    if i < b.len() {
        Rank::Less
    } else if i < a.len() {
        Rank::Greater
    } else {
        Rank::Equal
    }
}

} // verus!
