//! Lexicographic order: on the integers that stand for an element, and on
//! the elements of a row.

use vstd::prelude::*;

verus! {

/// The result of a comparison
#[derive(Clone, Copy, PartialEq, Eq, Structural, Debug)]
pub enum Order {
    Less,
    Equal,
    Greater,
}

impl Order {
    /// The result of the comparison with the two sides exchanged
    pub open spec fn flipped(self) -> Order {
        match self {
            Order::Less => Order::Greater,
            Order::Equal => Order::Equal,
            Order::Greater => Order::Less,
        }
    }

    /// The result of the comparison with the two sides exchanged
    pub fn reverse(self) -> (r: Order)
        ensures
            r == self.flipped(),
    {
        match self {
            Order::Less => Order::Greater,
            Order::Equal => Order::Equal,
            Order::Greater => Order::Less,
        }
    }
}

/// The order of two integers
pub open spec fn int_order(x: int, y: int) -> Order {
    if x < y {
        Order::Less
    } else if x > y {
        Order::Greater
    } else {
        Order::Equal
    }
}

/// `ord` is a total preorder: exchanging the sides flips the result, and
/// "not greater" is transitive.
pub open spec fn is_total<E>(ord: spec_fn(E, E) -> Order) -> bool {
    &&& forall|x: E, y: E| #[trigger] ord(y, x) == ord(x, y).flipped()
    &&& forall|x: E, y: E, z: E|
        #[trigger] ord(x, y) != Order::Greater && #[trigger] ord(y, z) != Order::Greater
            ==> ord(x, z) != Order::Greater
}

/// The order of `a` and `b` from place `k` on, place by place: the first
/// place where the two differ under `ord` decides; where one of them ends
/// first, it is the lesser.
pub open spec fn lex_by<E>(ord: spec_fn(E, E) -> Order, a: Seq<E>, b: Seq<E>, k: int) -> Order
    decreases a.len() - k,
{
    if k < 0 || k >= a.len() {
        if k < 0 || k >= b.len() {
            Order::Equal
        } else {
            Order::Less
        }
    } else if k >= b.len() {
        Order::Greater
    } else if ord(a[k], b[k]) != Order::Equal {
        ord(a[k], b[k])
    } else {
        lex_by(ord, a, b, k + 1)
    }
}

/// The lexicographic order of two sequences of integers
pub open spec fn lex(a: Seq<int>, b: Seq<int>) -> Order {
    lex_by(|x: int, y: int| int_order(x, y), a, b, 0)
}

/// The order of integers is a total preorder.
pub proof fn lemma_int_order_total()
    ensures
        is_total(|x: int, y: int| int_order(x, y)),
{
}

/// Exchanging the sides flips the lexicographic order.
pub proof fn lemma_lex_by_flip<E>(ord: spec_fn(E, E) -> Order, a: Seq<E>, b: Seq<E>, k: int)
    requires
        is_total(ord),
    ensures
        lex_by(ord, b, a, k) == lex_by(ord, a, b, k).flipped(),
    decreases a.len() - k,
{
    if 0 <= k < a.len() && k < b.len() {
        assert(ord(b[k], a[k]) == ord(a[k], b[k]).flipped());
        lemma_lex_by_flip(ord, a, b, k + 1);
    }
}

/// "Not greater" is transitive in the lexicographic order, and the result
/// is "less" where one of the two steps is.
pub proof fn lemma_lex_by_trans<E>(
    ord: spec_fn(E, E) -> Order,
    a: Seq<E>,
    b: Seq<E>,
    c: Seq<E>,
    k: int,
)
    requires
        is_total(ord),
        lex_by(ord, a, b, k) != Order::Greater,
        lex_by(ord, b, c, k) != Order::Greater,
    ensures
        lex_by(ord, a, c, k) != Order::Greater,
        lex_by(ord, a, b, k) == Order::Less || lex_by(ord, b, c, k) == Order::Less ==> lex_by(
            ord,
            a,
            c,
            k,
        ) == Order::Less,
    decreases a.len() - k,
{
    if 0 <= k < a.len() && k < b.len() && k < c.len() {
        let ab = ord(a[k], b[k]);
        let bc = ord(b[k], c[k]);
        let ac = ord(a[k], c[k]);
        assert(ac != Order::Greater);
        assert(ord(c[k], b[k]) == bc.flipped());
        assert(ord(b[k], a[k]) == ab.flipped());
        assert(ord(c[k], a[k]) == ac.flipped());
        if ab == Order::Equal && bc == Order::Equal {
            // a[k] and c[k] are equal: neither is greater than the other
            assert(ord(c[k], b[k]) != Order::Greater && ord(b[k], a[k]) != Order::Greater);
            assert(ord(c[k], a[k]) != Order::Greater);
            lemma_lex_by_trans(ord, a, b, c, k + 1);
        } else if ab == Order::Equal {
            // bc is Less; were ac Equal, c[k] <= a[k] <= b[k] would follow
            if ac == Order::Equal {
                assert(ord(c[k], a[k]) != Order::Greater && ord(a[k], b[k]) != Order::Greater);
                assert(ord(c[k], b[k]) != Order::Greater);
            }
        } else if bc == Order::Equal {
            if ac == Order::Equal {
                assert(ord(b[k], c[k]) != Order::Greater && ord(c[k], a[k]) != Order::Greater);
                assert(ord(b[k], a[k]) != Order::Greater);
            }
        } else {
            if ac == Order::Equal {
                assert(ord(c[k], a[k]) != Order::Greater && ord(a[k], b[k]) != Order::Greater);
                assert(ord(c[k], b[k]) != Order::Greater);
            }
        }
    }
}

/// The order of two one-integer sequences is that of the integers.
pub proof fn lemma_lex_single(x: int, y: int)
    ensures
        lex(seq![x], seq![y]) == int_order(x, y),
{
    let ord = |x: int, y: int| int_order(x, y);
    reveal_with_fuel(lex_by, 3);
    assert(lex_by(ord, seq![x], seq![y], 1) == Order::Equal);
}

/// The order of two two-integer sequences: the first integers decide, the
/// second where the first are equal.
pub proof fn lemma_lex_pair(x0: int, x1: int, y0: int, y1: int)
    ensures
        lex(seq![x0, x1], seq![y0, y1]) == if x0 != y0 {
            int_order(x0, y0)
        } else {
            int_order(x1, y1)
        },
{
    let ord = |x: int, y: int| int_order(x, y);
    reveal_with_fuel(lex_by, 4);
    assert(lex_by(ord, seq![x0, x1], seq![y0, y1], 2) == Order::Equal);
}

/// The integers that a vector of machine integers holds
pub open spec fn as_ints(s: Seq<i128>) -> Seq<int> {
    Seq::new(s.len(), |i: int| s[i] as int)
}

/// Compares two vectors of integers lexicographically.
pub fn compare_ints(a: &Vec<i128>, b: &Vec<i128>) -> (o: Order)
    ensures
        o == lex(as_ints(a@), as_ints(b@)),
{
    let ghost ord = |x: int, y: int| int_order(x, y);
    let mut k: usize = 0;
    while k < a.len() && k < b.len()
        invariant
            k <= a@.len(),
            k <= b@.len(),
            ord == (|x: int, y: int| int_order(x, y)),
            lex(as_ints(a@), as_ints(b@)) == lex_by(ord, as_ints(a@), as_ints(b@), k as int),
        decreases a@.len() - k,
    {
        if a[k] < b[k] {
            return Order::Less;
        }
        if a[k] > b[k] {
            return Order::Greater;
        }
        k += 1;
    }
    if k < b.len() {
        Order::Less
    } else if k < a.len() {
        Order::Greater
    } else {
        Order::Equal
    }
}

} // verus!
