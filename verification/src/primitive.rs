//! The tagged scalar type used as secondary-index keys, with its total order.

use vstd::prelude::*;

use crate::order::{lemma_lex_lt_transitive, lemma_lex_lt_trichotomy, lex_lt, KeyCmp, TreeKey,
    TreeValue};

verus! {

/// A scalar key for a secondary index.
///
/// A floating-point key is carried as the order-preserving integer encoding
/// of its bit pattern (sign bit flipped for non-negatives, all bits flipped
/// for negatives), so that unsigned comparison of the encodings agrees with
/// the numeric order of the doubles; the caller performs that encoding.
pub enum Primitive {
    Boolean(bool),
    Integer(i128),
    Float(u64),
    String(String),
}

/// The mathematical value of a `Primitive`.
pub enum PrimitiveView {
    Boolean(bool),
    Integer(int),
    Float(u64),
    String(Seq<char>),
}

impl View for Primitive {
    type V = PrimitiveView;

    open spec fn view(&self) -> PrimitiveView {
        match self {
            Primitive::Boolean(x) => PrimitiveView::Boolean(*x),
            Primitive::Integer(x) => PrimitiveView::Integer(*x as int),
            Primitive::Float(x) => PrimitiveView::Float(*x),
            Primitive::String(x) => PrimitiveView::String(x@),
        }
    }
}

/// Rank of a variant in the cross-variant order:
/// booleans before integers before floats before strings.
pub open spec fn prim_tag(p: PrimitiveView) -> int {
    match p {
        PrimitiveView::Boolean(_) => 0,
        PrimitiveView::Integer(_) => 1,
        PrimitiveView::Float(_) => 2,
        PrimitiveView::String(_) => 3,
    }
}

/// Strict total order on primitive values: by variant rank across variants,
/// by the natural order within one variant.
pub open spec fn prim_lt(a: PrimitiveView, b: PrimitiveView) -> bool {
    if prim_tag(a) != prim_tag(b) {
        prim_tag(a) < prim_tag(b)
    } else {
        match (a, b) {
            (PrimitiveView::Boolean(x), PrimitiveView::Boolean(y)) => !x && y,
            (PrimitiveView::Integer(x), PrimitiveView::Integer(y)) => x < y,
            (PrimitiveView::Float(x), PrimitiveView::Float(y)) => x < y,
            (PrimitiveView::String(x), PrimitiveView::String(y)) => lex_lt(x, y),
            _ => false,
        }
    }
}

impl TreeValue for Primitive {
    fn dup(&self) -> (r: Self)
        ensures
            r@ == self@,
    {
        match self {
            Primitive::Boolean(x) => Primitive::Boolean(*x),
            Primitive::Integer(x) => Primitive::Integer(*x),
            Primitive::Float(x) => Primitive::Float(*x),
            Primitive::String(x) => Primitive::String(x.clone()),
        }
    }
}

impl TreeKey for Primitive {
    open spec fn key_lt(a: PrimitiveView, b: PrimitiveView) -> bool {
        prim_lt(a, b)
    }

    proof fn lemma_lt_transitive(a: PrimitiveView, b: PrimitiveView, c: PrimitiveView) {
        match (a, b, c) {
            (PrimitiveView::String(x), PrimitiveView::String(y), PrimitiveView::String(z)) => {
                if prim_tag(a) == prim_tag(b) && prim_tag(b) == prim_tag(c) {
                    lemma_lex_lt_transitive(x, y, z);
                }
            },
            _ => {},
        }
    }

    proof fn lemma_lt_trichotomy(a: PrimitiveView, b: PrimitiveView) {
        match (a, b) {
            (PrimitiveView::String(x), PrimitiveView::String(y)) => {
                lemma_lex_lt_trichotomy(x, y);
            },
            _ => {},
        }
    }

    fn key_cmp(&self, other: &Self) -> (c: KeyCmp)
        ensures
            (match c {
                KeyCmp::Less => prim_lt(self@, other@),
                KeyCmp::Equal => self@ == other@,
                KeyCmp::Greater => prim_lt(other@, self@),
            }),
    {
        match (self, other) {
            (Primitive::Boolean(x), Primitive::Boolean(y)) => {
                if !*x && *y {
                    KeyCmp::Less
                } else if *x && !*y {
                    KeyCmp::Greater
                } else {
                    KeyCmp::Equal
                }
            },
            (Primitive::Integer(x), Primitive::Integer(y)) => {
                if *x < *y {
                    KeyCmp::Less
                } else if *y < *x {
                    KeyCmp::Greater
                } else {
                    KeyCmp::Equal
                }
            },
            (Primitive::Float(x), Primitive::Float(y)) => {
                if *x < *y {
                    KeyCmp::Less
                } else if *y < *x {
                    KeyCmp::Greater
                } else {
                    KeyCmp::Equal
                }
            },
            (Primitive::String(x), Primitive::String(y)) => x.key_cmp(y),
            (x, y) => {
                let tx = x.tag();
                let ty = y.tag();
                if tx < ty {
                    KeyCmp::Less
                } else {
                    KeyCmp::Greater
                }
            },
        }
    }
}

impl Primitive {
    /// The variant rank, as executable code.
    pub fn tag(&self) -> (t: u8)
        ensures
            t as int == prim_tag(self@),
    {
        match self {
            Primitive::Boolean(_) => 0,
            Primitive::Integer(_) => 1,
            Primitive::Float(_) => 2,
            Primitive::String(_) => 3,
        }
    }
}

} // verus!
