//! Total ordering of keys: a lexicographic order on character sequences,
//! and the traits that tree keys and tree values must satisfy.

use vstd::prelude::*;

verus! {

/// Result of a three-way comparison between two keys.
pub enum KeyCmp {
    Less,
    Equal,
    Greater,
}

/// Strict lexicographic order on character sequences, comparing characters
/// by their Unicode scalar values. A proper prefix sorts before its extensions.
pub open spec fn lex_lt(a: Seq<char>, b: Seq<char>) -> bool
    decreases a.len(),
{
    if b.len() == 0 {
        false
    } else if a.len() == 0 {
        true
    } else if (a[0] as int) < (b[0] as int) {
        true
    } else if (b[0] as int) < (a[0] as int) {
        false
    } else {
        lex_lt(a.skip(1), b.skip(1))
    }
}

pub proof fn lemma_lex_lt_transitive(a: Seq<char>, b: Seq<char>, c: Seq<char>)
    requires
        lex_lt(a, b),
        lex_lt(b, c),
    ensures
        lex_lt(a, c),
    decreases a.len(),
{
    if c.len() == 0 {
        // lex_lt(b, c) is false: nothing to prove
    } else if b.len() == 0 {
        // lex_lt(a, b) is false: nothing to prove
    } else if a.len() == 0 {
        // a empty, c nonempty
    } else {
        if (a[0] as int) < (b[0] as int) {
            if (b[0] as int) < (c[0] as int) {
            } else {
                // b[0] == c[0], so a[0] < c[0]
            }
        } else {
            // a[0] == b[0]
            if (b[0] as int) < (c[0] as int) {
            } else {
                // a[0] == b[0] == c[0]
                lemma_lex_lt_transitive(a.skip(1), b.skip(1), c.skip(1));
            }
        }
    }
}

pub proof fn lemma_lex_lt_trichotomy(a: Seq<char>, b: Seq<char>)
    ensures
        lex_lt(a, b) || a == b || lex_lt(b, a),
        lex_lt(a, b) ==> a != b,
        !(lex_lt(a, b) && lex_lt(b, a)),
    decreases a.len(),
{
    if a.len() == 0 && b.len() == 0 {
        assert(a =~= b);
    } else if a.len() == 0 || b.len() == 0 {
    } else {
        if (a[0] as int) < (b[0] as int) {
        } else if (b[0] as int) < (a[0] as int) {
        } else {
            lemma_lex_lt_trichotomy(a.skip(1), b.skip(1));
            if a.skip(1) == b.skip(1) && a[0] == b[0] {
                assert(a =~= b) by {
                    assert(forall|i: int| 1 <= i < a.len() ==> a[i] == a.skip(1)[i - 1]);
                }
            }
            if a == b {
                assert(a.skip(1) =~= b.skip(1));
            }
        }
    }
}

/// Values stored in a tree: viewable, with a view-preserving duplication.
pub trait TreeValue: View + Sized {
    /// Produce a copy whose view equals this value's view.
    fn dup(&self) -> (r: Self)
        ensures
            r@ == self@,
    ;
}

/// Keys of a tree: values whose views carry a strict total order, with an
/// executable three-way comparison that agrees with it.
pub trait TreeKey: TreeValue {
    /// The strict order on key views.
    spec fn key_lt(a: Self::V, b: Self::V) -> bool;

    proof fn lemma_lt_transitive(a: Self::V, b: Self::V, c: Self::V)
        requires
            Self::key_lt(a, b),
            Self::key_lt(b, c),
        ensures
            Self::key_lt(a, c),
    ;

    proof fn lemma_lt_trichotomy(a: Self::V, b: Self::V)
        ensures
            Self::key_lt(a, b) || a == b || Self::key_lt(b, a),
            Self::key_lt(a, b) ==> a != b,
            !(Self::key_lt(a, b) && Self::key_lt(b, a)),
    ;

    fn key_cmp(&self, other: &Self) -> (c: KeyCmp)
        ensures
            (match c {
                KeyCmp::Less => Self::key_lt(self@, other@),
                KeyCmp::Equal => self@ == other@,
                KeyCmp::Greater => Self::key_lt(other@, self@),
            }),
    ;
}

impl TreeValue for String {
    fn dup(&self) -> (r: Self)
        ensures
            r@ == self@,
    {
        self.clone()
    }
}

/// If two sequences agree on their first `i` characters, their order is
/// decided at position `i`: a shorter one precedes, a smaller character
/// precedes, and exhausting both makes them equal.
proof fn lemma_lex_lt_at(a: Seq<char>, b: Seq<char>, i: int)
    requires
        0 <= i <= a.len(),
        0 <= i <= b.len(),
        forall|j: int| 0 <= j < i ==> a[j] == b[j],
    ensures
        (i == a.len() && i < b.len()) ==> lex_lt(a, b),
        (i < a.len() && i < b.len() && (a[i] as int) < (b[i] as int)) ==> lex_lt(a, b),
        (i == a.len() && i == b.len()) ==> a == b,
    decreases i,
{
    if i == 0 {
        if a.len() == 0 && b.len() == 0 {
            assert(a =~= b);
        }
    } else {
        assert(a.len() > 0 && b.len() > 0 && a[0] == b[0]);
        lemma_lex_lt_at(a.skip(1), b.skip(1), i - 1);
        if i == a.len() && i == b.len() {
            assert(a.skip(1) == b.skip(1));
            assert(a =~= b);
        }
        if i < a.len() && i < b.len() && (a[i] as int) < (b[i] as int) {
            assert(a.skip(1)[i - 1] == a[i]);
            assert(b.skip(1)[i - 1] == b[i]);
        }
    }
}

impl TreeKey for String {
    open spec fn key_lt(a: Seq<char>, b: Seq<char>) -> bool {
        lex_lt(a, b)
    }

    proof fn lemma_lt_transitive(a: Seq<char>, b: Seq<char>, c: Seq<char>) {
        lemma_lex_lt_transitive(a, b, c);
    }

    proof fn lemma_lt_trichotomy(a: Seq<char>, b: Seq<char>) {
        lemma_lex_lt_trichotomy(a, b);
    }

    fn key_cmp(&self, other: &Self) -> (c: KeyCmp)
        ensures
            (match c {
                KeyCmp::Less => lex_lt(self@, other@),
                KeyCmp::Equal => self@ == other@,
                KeyCmp::Greater => lex_lt(other@, self@),
            }),
    {
        let a = self.as_str();
        let b = other.as_str();
        let a_len = a.unicode_len();
        let b_len = b.unicode_len();
        let mut i: usize = 0;
        while i < a_len && i < b_len
            invariant
                0 <= i <= a_len,
                i <= b_len,
                a_len == a@.len(),
                b_len == b@.len(),
                a@ == self@,
                b@ == other@,
                forall|j: int| 0 <= j < i ==> a@[j] == b@[j],
            decreases a_len - i,
        {
            let ca = a.get_char(i);
            let cb = b.get_char(i);
            if (ca as u32) < (cb as u32) {
                proof {
                    lemma_lex_lt_at(self@, other@, i as int);
                }
                return KeyCmp::Less;
            }
            if (cb as u32) < (ca as u32) {
                proof {
                    lemma_lex_lt_at(other@, self@, i as int);
                }
                return KeyCmp::Greater;
            }
            proof {
                assert(a@[i as int] == b@[i as int]);
            }
            i = i + 1;
        }
        if i == a_len {
            if i == b_len {
                proof {
                    lemma_lex_lt_at(self@, other@, i as int);
                }
                KeyCmp::Equal
            } else {
                proof {
                    lemma_lex_lt_at(self@, other@, i as int);
                }
                KeyCmp::Less
            }
        } else {
            proof {
                lemma_lex_lt_at(other@, self@, i as int);
            }
            KeyCmp::Greater
        }
    }
}

} // verus!
