use vstd::prelude::*;

use crate::bit_width::two_pow;
use crate::bit_width::is_min_bit_width;
use crate::selection::{select_rows, lemma_select_rows_map};
use crate::primitive::{LiquidPrimitiveArray, PrimitiveKind, codes_fit, max_present};

verus! {

/// The powers of two at the widths of the integer types.
pub proof fn lemma_type_widths()
    ensures
        two_pow(8) == 0x100,
        two_pow(16) == 0x1_0000,
        two_pow(32) == 0x1_0000_0000,
        two_pow(64) == 0x1_0000_0000_0000_0000,
{
    reveal_with_fuel(two_pow, 65);
}

/// An integer type that a primitive array can hold. A value is stored as
/// its code: its bits read as an unsigned integer of the same width.
pub trait LiquidPrimitiveType: Sized + Copy {
    /// The kind of array that holds this type.
    spec fn kind_spec() -> PrimitiveKind;

    /// The code of `v`.
    spec fn code_of(v: Self) -> u64;

    /// The kind of array that holds this type.
    fn kind() -> (r: PrimitiveKind)
        ensures
            r == Self::kind_spec(),
    ;

    /// The code of `v`, which fits the type's width.
    fn to_code(v: Self) -> (r: u64)
        ensures
            r == Self::code_of(v),
            r < two_pow(Self::kind_spec().bits_spec()),
    ;

    /// The value whose code is `c`.
    fn from_code(c: u64) -> (r: Self)
        requires
            c < two_pow(Self::kind_spec().bits_spec()),
        ensures
            Self::code_of(r) == c,
    ;

    /// Distinct values have distinct codes.
    proof fn lemma_code_injective(a: Self, b: Self)
        ensures
            Self::code_of(a) == Self::code_of(b) ==> a == b,
    ;
}

impl LiquidPrimitiveType for i8 {
    open spec fn kind_spec() -> PrimitiveKind {
        PrimitiveKind::Int8
    }

    open spec fn code_of(v: i8) -> u64 {
        (v as u8) as u64
    }

    fn kind() -> (r: PrimitiveKind) {
        PrimitiveKind::Int8
    }

    fn to_code(v: i8) -> (r: u64) {
        proof {
            lemma_type_widths();
        }
        (v as u8) as u64
    }

    fn from_code(c: u64) -> (r: i8) {
        proof {
            lemma_type_widths();
            assert((((c as u8) as i8) as u8) as u64 == c) by (bit_vector)
                requires c < 0x100u64;
        }
        (c as u8) as i8
    }

    proof fn lemma_code_injective(a: i8, b: i8) {
        assert((a as u8) as u64 == (b as u8) as u64 ==> a == b) by (bit_vector);
    }
}

impl LiquidPrimitiveType for i16 {
    open spec fn kind_spec() -> PrimitiveKind {
        PrimitiveKind::Int16
    }

    open spec fn code_of(v: i16) -> u64 {
        (v as u16) as u64
    }

    fn kind() -> (r: PrimitiveKind) {
        PrimitiveKind::Int16
    }

    fn to_code(v: i16) -> (r: u64) {
        proof {
            lemma_type_widths();
        }
        (v as u16) as u64
    }

    fn from_code(c: u64) -> (r: i16) {
        proof {
            lemma_type_widths();
            assert((((c as u16) as i16) as u16) as u64 == c) by (bit_vector)
                requires c < 0x1_0000u64;
        }
        (c as u16) as i16
    }

    proof fn lemma_code_injective(a: i16, b: i16) {
        assert((a as u16) as u64 == (b as u16) as u64 ==> a == b) by (bit_vector);
    }
}

impl LiquidPrimitiveType for i32 {
    open spec fn kind_spec() -> PrimitiveKind {
        PrimitiveKind::Int32
    }

    open spec fn code_of(v: i32) -> u64 {
        (v as u32) as u64
    }

    fn kind() -> (r: PrimitiveKind) {
        PrimitiveKind::Int32
    }

    fn to_code(v: i32) -> (r: u64) {
        proof {
            lemma_type_widths();
        }
        (v as u32) as u64
    }

    fn from_code(c: u64) -> (r: i32) {
        proof {
            lemma_type_widths();
            assert((((c as u32) as i32) as u32) as u64 == c) by (bit_vector)
                requires c < 0x1_0000_0000u64;
        }
        (c as u32) as i32
    }

    proof fn lemma_code_injective(a: i32, b: i32) {
        assert((a as u32) as u64 == (b as u32) as u64 ==> a == b) by (bit_vector);
    }
}

impl LiquidPrimitiveType for i64 {
    open spec fn kind_spec() -> PrimitiveKind {
        PrimitiveKind::Int64
    }

    open spec fn code_of(v: i64) -> u64 {
        v as u64
    }

    fn kind() -> (r: PrimitiveKind) {
        PrimitiveKind::Int64
    }

    fn to_code(v: i64) -> (r: u64) {
        proof {
            lemma_type_widths();
        }
        v as u64
    }

    fn from_code(c: u64) -> (r: i64) {
        proof {
            lemma_type_widths();
            assert((c as i64) as u64 == c) by (bit_vector)
                
        }
        c as i64
    }

    proof fn lemma_code_injective(a: i64, b: i64) {
        assert(a as u64 == b as u64 ==> a == b) by (bit_vector);
    }
}

impl LiquidPrimitiveType for u8 {
    open spec fn kind_spec() -> PrimitiveKind {
        PrimitiveKind::UInt8
    }

    open spec fn code_of(v: u8) -> u64 {
        v as u64
    }

    fn kind() -> (r: PrimitiveKind) {
        PrimitiveKind::UInt8
    }

    fn to_code(v: u8) -> (r: u64) {
        proof {
            lemma_type_widths();
        }
        v as u64
    }

    fn from_code(c: u64) -> (r: u8) {
        proof {
            lemma_type_widths();
            assert((c as u8) as u64 == c) by (bit_vector)
                requires c < 0x100u64;
        }
        c as u8
    }

    proof fn lemma_code_injective(a: u8, b: u8) {
        assert(a as u64 == b as u64 ==> a == b) by (bit_vector);
    }
}

impl LiquidPrimitiveType for u16 {
    open spec fn kind_spec() -> PrimitiveKind {
        PrimitiveKind::UInt16
    }

    open spec fn code_of(v: u16) -> u64 {
        v as u64
    }

    fn kind() -> (r: PrimitiveKind) {
        PrimitiveKind::UInt16
    }

    fn to_code(v: u16) -> (r: u64) {
        proof {
            lemma_type_widths();
        }
        v as u64
    }

    fn from_code(c: u64) -> (r: u16) {
        proof {
            lemma_type_widths();
            assert((c as u16) as u64 == c) by (bit_vector)
                requires c < 0x1_0000u64;
        }
        c as u16
    }

    proof fn lemma_code_injective(a: u16, b: u16) {
        assert(a as u64 == b as u64 ==> a == b) by (bit_vector);
    }
}

impl LiquidPrimitiveType for u32 {
    open spec fn kind_spec() -> PrimitiveKind {
        PrimitiveKind::UInt32
    }

    open spec fn code_of(v: u32) -> u64 {
        v as u64
    }

    fn kind() -> (r: PrimitiveKind) {
        PrimitiveKind::UInt32
    }

    fn to_code(v: u32) -> (r: u64) {
        proof {
            lemma_type_widths();
        }
        v as u64
    }

    fn from_code(c: u64) -> (r: u32) {
        proof {
            lemma_type_widths();
            assert((c as u32) as u64 == c) by (bit_vector)
                requires c < 0x1_0000_0000u64;
        }
        c as u32
    }

    proof fn lemma_code_injective(a: u32, b: u32) {
        assert(a as u64 == b as u64 ==> a == b) by (bit_vector);
    }
}

impl LiquidPrimitiveType for u64 {
    open spec fn kind_spec() -> PrimitiveKind {
        PrimitiveKind::UInt64
    }

    open spec fn code_of(v: u64) -> u64 {
        v
    }

    fn kind() -> (r: PrimitiveKind) {
        PrimitiveKind::UInt64
    }

    fn to_code(v: u64) -> (r: u64) {
        proof {
            lemma_type_widths();
        }
        v
    }

    fn from_code(c: u64) -> (r: u64) {
        proof {
            lemma_type_widths();
        }
        c
    }

    proof fn lemma_code_injective(a: u64, b: u64) {
    }
}

/// The codes of a column of values, nulls where they were.
pub open spec fn codes_of<T: LiquidPrimitiveType>(values: Seq<Option<T>>) -> Seq<Option<u64>> {
    values.map_values(
        |v: Option<T>|
            match v {
                Some(x) => Some(T::code_of(x)),
                None => None,
            },
    )
}

/// Decoding gives back exactly what was encoded: two columns whose codes
/// agree row for row hold the same values and the same nulls.
pub proof fn lemma_values_round_trip<T: LiquidPrimitiveType>(
    values: Seq<Option<T>>,
    decoded: Seq<Option<T>>,
)
    requires
        codes_of(decoded) == codes_of(values),
    ensures
        decoded == values,
{
    assert(decoded.len() == codes_of(decoded).len());
    assert forall|i: int| 0 <= i < values.len() implies decoded[i] == values[i] by {
        assert(codes_of(decoded)[i] == codes_of(values)[i]);
        match (decoded[i], values[i]) {
            (Some(x), Some(y)) => T::lemma_code_injective(x, y),
            _ => {},
        }
    }
    assert(decoded =~= values);
}

/// Filtering commutes with decoding: the values decoded from a filtered
/// column are the selected rows of the values decoded from the column.
pub proof fn lemma_filter_decode_commute<T: LiquidPrimitiveType>(
    values: Seq<Option<T>>,
    selection: Seq<bool>,
    filtered: Seq<Option<T>>,
)
    requires
        values.len() == selection.len(),
        codes_of(filtered) == select_rows(codes_of(values), selection),
    ensures
        filtered == select_rows(values, selection),
{
    let f = |v: Option<T>|
        match v {
            Some(x) => Some(T::code_of(x)),
            None => None,
        };
    assert(codes_of(values) == values.map_values(f));
    lemma_select_rows_map(values, selection, f);
    assert(codes_of(select_rows(values, selection)) == select_rows(values, selection).map_values(f));
    lemma_values_round_trip(select_rows(values, selection), filtered);
}

impl LiquidPrimitiveArray {
    /// Packs a column of values of type `T`; `None` is a null.
    pub fn from_values<T: LiquidPrimitiveType>(values: &Vec<Option<T>>) -> (r: Self)
        requires
            values.len() * 64 <= usize::MAX,
        ensures
            r.wf(),
            r@ == codes_of(values@),
            r.kind_spec() == T::kind_spec(),
            is_min_bit_width(max_present(r@), r.width()),
    {
        let mut codes: Vec<Option<u64>> = Vec::new();
        let mut i: usize = 0;
        while i < values.len()
            invariant
                i <= values@.len(),
                codes@ == codes_of(values@).take(i as int),
                codes_fit(codes@, T::kind_spec().bits_spec()),
            decreases values@.len() - i,
        {
            let v: Option<T> = values[i];
            let c = match v {
                Some(x) => Some(T::to_code(x)),
                None => None,
            };
            codes.push(c);
            i = i + 1;
            assert(codes@ =~= codes_of(values@).take(i as int));
        }
        assert(codes_of(values@).take(i as int) =~= codes_of(values@));
        LiquidPrimitiveArray::from_codes(T::kind(), &codes)
    }

    /// The values as type `T`, nulls where they were; `None` where the
    /// array holds another type.
    pub fn to_values<T: LiquidPrimitiveType>(&self) -> (r: Option<Vec<Option<T>>>)
        requires
            self.wf(),
        ensures
            r is Some == (self.kind_spec() == T::kind_spec()),
            r is Some ==> codes_of(r->Some_0@) == self@,
    {
        if self.kind() != T::kind() {
            return None;
        }
        proof {
            self.lemma_codes_fit();
        }
        let codes = self.to_codes();
        let mut out: Vec<Option<T>> = Vec::new();
        let mut i: usize = 0;
        while i < codes.len()
            invariant
                i <= codes@.len(),
                codes@ == self@,
                self.kind_spec() == T::kind_spec(),
                codes_fit(self@, self.kind_spec().bits_spec()),
                codes_of(out@) == codes@.take(i as int),
            decreases codes@.len() - i,
        {
            let v = match codes[i] {
                Some(c) => Some(T::from_code(c)),
                None => None,
            };
            let ghost prev = out@;
            assert(match v {
                Some(x) => Some(T::code_of(x)),
                None => None,
            } == codes@[i as int]);
            out.push(v);
            assert(codes_of(out@) =~= codes_of(prev).push(codes@[i as int]));
            i = i + 1;
            assert(codes_of(out@) =~= codes@.take(i as int));
        }
        assert(codes@.take(i as int) =~= codes@);
        Some(out)
    }
}

} // verus!
