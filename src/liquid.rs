use vstd::prelude::*;

use crate::primitive::LiquidPrimitiveArray;
use crate::selection::{select_rows, compose_selections, count_selected, lemma_select_rows_compose, lemma_select_rows_len};
use crate::string::LiquidStringArray;
use crate::typed::LiquidPrimitiveType;

verus! {

/// A compressed column: one of the encodings of this library.
pub enum LiquidArray {
    Primitive(LiquidPrimitiveArray),
    String(LiquidStringArray),
}

/// Narrowing a compressed column to one of its encodings.
pub trait AsLiquidArray {
    /// The string array inside, if that is the encoding.
    spec fn string_part(&self) -> Option<LiquidStringArray>;

    /// The primitive array inside, if that is the encoding.
    spec fn primitive_part(&self) -> Option<LiquidPrimitiveArray>;

    /// The underlying string array, or `None` for another encoding.
    fn as_string_array_opt(&self) -> (r: Option<&LiquidStringArray>)
        ensures
            r is Some == self.string_part() is Some,
            r is Some ==> *r->Some_0 == self.string_part()->Some_0,
    ;

    /// The underlying string array, where the caller already knows the encoding.
    fn as_string(&self) -> (r: &LiquidStringArray)
        requires
            self.string_part() is Some,
        ensures
            *r == self.string_part()->Some_0,
    ;

    /// The underlying primitive array of integers of type `T`, or `None` for
    /// another encoding or another integer type.
    fn as_primitive_array_opt<T: LiquidPrimitiveType>(&self) -> (r: Option<&LiquidPrimitiveArray>)
        ensures
            r is Some == (self.primitive_part() is Some && self.primitive_part()->Some_0.kind_spec()
                == T::kind_spec()),
            r is Some ==> *r->Some_0 == self.primitive_part()->Some_0,
    ;

    /// The underlying primitive array of integers of type `T`, where the
    /// caller already knows the encoding and the type.
    fn as_primitive<T: LiquidPrimitiveType>(&self) -> (r: &LiquidPrimitiveArray)
        requires
            self.primitive_part() is Some,
            self.primitive_part()->Some_0.kind_spec() == T::kind_spec(),
        ensures
            *r == self.primitive_part()->Some_0,
    ;
}

impl AsLiquidArray for LiquidArray {
    open spec fn string_part(&self) -> Option<LiquidStringArray> {
        match self {
            LiquidArray::String(a) => Some(*a),
            _ => None,
        }
    }

    open spec fn primitive_part(&self) -> Option<LiquidPrimitiveArray> {
        match self {
            LiquidArray::Primitive(a) => Some(*a),
            _ => None,
        }
    }

    fn as_string_array_opt(&self) -> (r: Option<&LiquidStringArray>) {
        match self {
            LiquidArray::String(a) => Some(a),
            _ => None,
        }
    }

    fn as_string(&self) -> (r: &LiquidStringArray) {
        match self {
            LiquidArray::String(a) => a,
            LiquidArray::Primitive(_) => {
                vstd::pervasive::unreached()
            },
        }
    }

    fn as_primitive_array_opt<T: LiquidPrimitiveType>(&self) -> (r: Option<&LiquidPrimitiveArray>) {
        match self {
            LiquidArray::Primitive(a) => {
                if a.kind() == T::kind() {
                    Some(a)
                } else {
                    None
                }
            },
            _ => None,
        }
    }

    fn as_primitive<T: LiquidPrimitiveType>(&self) -> (r: &LiquidPrimitiveArray) {
        match self {
            LiquidArray::Primitive(a) => a,
            LiquidArray::String(_) => {
                vstd::pervasive::unreached()
            },
        }
    }
}

impl LiquidArray {
    pub open spec fn wf(&self) -> bool {
        match self {
            LiquidArray::Primitive(a) => a.wf(),
            LiquidArray::String(a) => a.wf(),
        }
    }

    /// The number of rows.
    pub open spec fn len_spec(&self) -> nat {
        match self {
            LiquidArray::Primitive(a) => a@.len(),
            LiquidArray::String(a) => a@.len(),
        }
    }

    /// The bytes that the array reports as resident.
    pub open spec fn reported_size(&self) -> nat {
        match self {
            LiquidArray::Primitive(a) => a.memory_size(),
            LiquidArray::String(a) => if a.memory_size() > usize::MAX {
                usize::MAX as nat
            } else {
                a.memory_size()
            },
        }
    }

    /// `r` holds the rows of `self` that `selection` keeps, in the same encoding.
    pub open spec fn is_filtered(&self, selection: Seq<bool>, r: LiquidArray) -> bool {
        match (*self, r) {
            (LiquidArray::Primitive(a), LiquidArray::Primitive(b)) => {
                &&& b@ == select_rows(a@, selection)
                &&& b.kind_spec() == a.kind_spec()
                &&& b.width() == a.width()
            },
            (LiquidArray::String(a), LiquidArray::String(b)) => {
                &&& b@ == select_rows(a@, selection)
                &&& b.symbols() == a.symbols()
            },
            _ => false,
        }
    }

    /// The number of rows.
    pub fn len(&self) -> (r: usize)
        requires
            self.wf(),
        ensures
            r == self.len_spec(),
    {
        match self {
            LiquidArray::Primitive(a) => a.len(),
            LiquidArray::String(a) => a.len(),
        }
    }

    /// Whether the array has no rows.
    pub fn is_empty(&self) -> (r: bool)
        requires
            self.wf(),
        ensures
            r == (self.len_spec() == 0),
    {
        self.len() == 0
    }

    /// The bytes that the array holds, the signal for a cache's budget.
    pub fn get_array_memory_size(&self) -> (r: usize)
        requires
            self.wf(),
        ensures
            r == self.reported_size(),
    {
        match self {
            LiquidArray::Primitive(a) => a.get_array_memory_size(),
            LiquidArray::String(a) => a.get_array_memory_size(),
        }
    }

    /// A new array, in the same encoding, of the rows that `selection` keeps.
    pub fn filter(&self, selection: &Vec<bool>) -> (r: LiquidArray)
        requires
            self.wf(),
            selection@.len() == self.len_spec(),
        ensures
            r.wf(),
            self.is_filtered(selection@, r),
            r.reported_size() <= self.reported_size(),
    {
        match self {
            LiquidArray::Primitive(a) => LiquidArray::Primitive(a.filter(selection)),
            LiquidArray::String(a) => LiquidArray::String(a.filter(selection)),
        }
    }
}

/// Filtering with `m1` and then with `m2`, which has an entry per row that
/// `m1` keeps, gives the array that one filter with the composed selection
/// gives.
pub proof fn lemma_filter_composition(
    a: LiquidArray,
    m1: Seq<bool>,
    b: LiquidArray,
    m2: Seq<bool>,
    c: LiquidArray,
)
    requires
        m1.len() == a.len_spec(),
        a.is_filtered(m1, b),
        m2.len() == b.len_spec(),
        b.is_filtered(m2, c),
    ensures
        compose_selections(m1, m2).len() == a.len_spec(),
        a.is_filtered(compose_selections(m1, m2), c),
{
    match (a, b) {
        (LiquidArray::Primitive(x), LiquidArray::Primitive(y)) => {
            lemma_select_rows_len(x@, m1);
            lemma_select_rows_compose(x@, m1, m2);
        },
        (LiquidArray::String(x), LiquidArray::String(y)) => {
            lemma_select_rows_len(x@, m1);
            lemma_select_rows_compose(x@, m1, m2);
        },
        _ => {},
    }
}

/// A filter keeps as many rows as the selection marks true.
pub proof fn lemma_filter_len(a: LiquidArray, m: Seq<bool>, b: LiquidArray)
    requires
        a.wf(),
        m.len() == a.len_spec(),
        a.is_filtered(m, b),
    ensures
        count_selected(m) == b.len_spec(),
{
    match (a, b) {
        (LiquidArray::Primitive(x), LiquidArray::Primitive(y)) => {
            lemma_select_rows_len(x@, m);
        },
        (LiquidArray::String(x), LiquidArray::String(y)) => {
            lemma_select_rows_len(x@, m);
        },
        _ => {},
    }
}

} // verus!
