//! Total order on keys: a trait carrying the order as a spec relation, its
//! laws as proof obligations, and an executable three-way comparison.

use vstd::prelude::*;

verus! {

/// Result of a three-way comparison between two keys.
pub enum Cmp {
    Less,
    Equal,
    Greater,
}

/// A total order on the key type: a reflexive, transitive, total spec
/// relation `le`, and an executable comparison that decides it.
///
/// Antisymmetry is not demanded: two keys may be equivalent under the order
/// without being equal (for `String`, equality of the order goes by the
/// character sequence). The table treats order-equivalent keys as the same
/// key throughout.
pub trait TotalOrdered: Sized {
    spec fn le(self, other: Self) -> bool;

    proof fn reflexive(x: Self)
        ensures
            x.le(x),
    ;

    proof fn transitive(x: Self, y: Self, z: Self)
        requires
            x.le(y),
            y.le(z),
        ensures
            x.le(z),
    ;

    proof fn total(x: Self, y: Self)
        ensures
            x.le(y) || y.le(x),
    ;

    fn compare(&self, other: &Self) -> (c: Cmp)
        ensures
            match c {
                Cmp::Less => self.le(*other) && !other.le(*self),
                Cmp::Equal => self.le(*other) && other.le(*self),
                Cmp::Greater => other.le(*self) && !self.le(*other),
            },
    ;
}

/// Two keys are equivalent when each is `le` the other.
pub open spec fn eqv<K: TotalOrdered>(a: K, b: K) -> bool {
    a.le(b) && b.le(a)
}

/// Lexicographic order on character sequences, by Unicode scalar value.
pub open spec fn seq_le(a: Seq<char>, b: Seq<char>) -> bool
    decreases a.len(),
{
    if a.len() == 0 {
        true
    } else if b.len() == 0 {
        false
    } else if a[0] == b[0] {
        seq_le(a.skip(1), b.skip(1))
    } else {
        (a[0] as u32) < (b[0] as u32)
    }
}

proof fn lemma_seq_le_refl(a: Seq<char>)
    ensures
        seq_le(a, a),
    decreases a.len(),
{
    if a.len() != 0 {
        lemma_seq_le_refl(a.skip(1));
    }
}

proof fn lemma_seq_le_total(a: Seq<char>, b: Seq<char>)
    ensures
        seq_le(a, b) || seq_le(b, a),
    decreases a.len(),
{
    if a.len() == 0 {
        assert(seq_le(a, b));
    } else if b.len() == 0 {
        assert(seq_le(b, a));
    } else if a[0] == b[0] {
        lemma_seq_le_total(a.skip(1), b.skip(1));
        assert(seq_le(a, b) == seq_le(a.skip(1), b.skip(1)));
        assert(seq_le(b, a) == seq_le(b.skip(1), a.skip(1)));
    } else {
        vstd::utf8::char_is_scalar(a[0]);
        vstd::utf8::char_is_scalar(b[0]);
        vstd::utf8::char_u32_cast(a[0], a[0] as u32);
        vstd::utf8::char_u32_cast(b[0], b[0] as u32);
        assert((a[0] as u32) != (b[0] as u32));
        assert(seq_le(a, b) == ((a[0] as u32) < (b[0] as u32)));
        assert(seq_le(b, a) == ((b[0] as u32) < (a[0] as u32)));
    }
}

proof fn lemma_seq_le_trans(a: Seq<char>, b: Seq<char>, c: Seq<char>)
    requires
        seq_le(a, b),
        seq_le(b, c),
    ensures
        seq_le(a, c),
    decreases a.len(),
{
    if a.len() != 0 {
        if a[0] == b[0] && b[0] == c[0] {
            lemma_seq_le_trans(a.skip(1), b.skip(1), c.skip(1));
        }
    }
}

/// While two sequences agree on a prefix, their order is their tails'.
proof fn lemma_seq_le_skip(a: Seq<char>, b: Seq<char>, i: int)
    requires
        0 <= i <= a.len(),
        i <= b.len(),
        forall|j: int| 0 <= j < i ==> a[j] == b[j],
    ensures
        seq_le(a, b) == seq_le(a.skip(i), b.skip(i)),
    decreases i,
{
    if i > 0 {
        assert(a.skip(1).skip(i - 1) =~= a.skip(i));
        assert(b.skip(1).skip(i - 1) =~= b.skip(i));
        assert(forall|j: int| 0 <= j < i - 1 ==> a.skip(1)[j] == b.skip(1)[j]);
        lemma_seq_le_skip(a.skip(1), b.skip(1), i - 1);
    } else {
        assert(a.skip(0) =~= a);
        assert(b.skip(0) =~= b);
    }
}

impl TotalOrdered for String {
    open spec fn le(self, other: Self) -> bool {
        seq_le(self@, other@)
    }

    proof fn reflexive(x: Self) {
        lemma_seq_le_refl(x@);
    }

    proof fn transitive(x: Self, y: Self, z: Self) {
        lemma_seq_le_trans(x@, y@, z@);
    }

    proof fn total(x: Self, y: Self) {
        lemma_seq_le_total(x@, y@);
    }

    fn compare(&self, other: &Self) -> (c: Cmp) {
        let a = self.as_str();
        let b = other.as_str();
        let alen = a.unicode_len();
        let blen = b.unicode_len();
        let mut i: usize = 0;
        while i < alen && i < blen
            invariant
                i <= alen,
                i <= blen,
                alen == a@.len(),
                blen == b@.len(),
                a@ == self@,
                b@ == other@,
                forall|j: int| 0 <= j < i ==> a@[j] == b@[j],
            decreases alen - i,
        {
            let ca = a.get_char(i);
            let cb = b.get_char(i);
            if (ca as u32) < (cb as u32) {
                proof {
                    lemma_seq_le_skip(a@, b@, i as int);
                    lemma_seq_le_skip(b@, a@, i as int);
                }
                return Cmp::Less;
            } else if (cb as u32) < (ca as u32) {
                proof {
                    lemma_seq_le_skip(a@, b@, i as int);
                    lemma_seq_le_skip(b@, a@, i as int);
                }
                return Cmp::Greater;
            }
            proof {
                vstd::utf8::char_u32_cast(ca, ca as u32);
                vstd::utf8::char_u32_cast(cb, cb as u32);
                assert(ca == cb);
            }
            i = i + 1;
        }
        proof {
            lemma_seq_le_skip(a@, b@, i as int);
            lemma_seq_le_skip(b@, a@, i as int);
        }
        if alen == blen {
            Cmp::Equal
        } else if alen < blen {
            Cmp::Less
        } else {
            Cmp::Greater
        }
    }
}

impl TotalOrdered for u64 {
    open spec fn le(self, other: Self) -> bool {
        self <= other
    }

    proof fn reflexive(x: Self) {
    }

    proof fn transitive(x: Self, y: Self, z: Self) {
    }

    proof fn total(x: Self, y: Self) {
    }

    fn compare(&self, other: &Self) -> (c: Cmp) {
        if *self < *other {
            Cmp::Less
        } else if *self == *other {
            Cmp::Equal
        } else {
            Cmp::Greater
        }
    }
}

} // verus!
