use vstd::prelude::*;

use crate::bit_pack::{BitPackedArray, all_fit, words_needed, PACKED_OVERHEAD};
use crate::bit_width::{get_bit_width, is_min_bit_width, two_pow};
use crate::selection::{select_rows, count_selected, lemma_select_rows_len, lemma_count_selected_bound, with_validity, lemma_with_validity_select};

verus! {

/// Bytes that a primitive array holds besides its two packed buffers.
pub const PRIMITIVE_OVERHEAD: usize = 8;

/// The integer types that a primitive array can hold.
#[derive(Clone, Copy, Debug, PartialEq, Eq, Structural)]
pub enum PrimitiveKind {
    Int8,
    Int16,
    Int32,
    Int64,
    UInt8,
    UInt16,
    UInt32,
    UInt64,
}

impl PrimitiveKind {
    /// The width of the type, in bits.
    pub open spec fn bits_spec(self) -> nat {
        match self {
            PrimitiveKind::Int8 | PrimitiveKind::UInt8 => 8,
            PrimitiveKind::Int16 | PrimitiveKind::UInt16 => 16,
            PrimitiveKind::Int32 | PrimitiveKind::UInt32 => 32,
            PrimitiveKind::Int64 | PrimitiveKind::UInt64 => 64,
        }
    }

    /// The width of the type, in bits.
    pub fn bits(&self) -> (r: u8)
        ensures
            r == self.bits_spec(),
    {
        match self {
            PrimitiveKind::Int8 | PrimitiveKind::UInt8 => 8,
            PrimitiveKind::Int16 | PrimitiveKind::UInt16 => 16,
            PrimitiveKind::Int32 | PrimitiveKind::UInt32 => 32,
            PrimitiveKind::Int64 | PrimitiveKind::UInt64 => 64,
        }
    }
}

/// Every present code is a value of a type `bits` wide, read as unsigned.
pub open spec fn codes_fit(values: Seq<Option<u64>>, bits: nat) -> bool {
    forall|i: int|
        0 <= i < values.len() && #[trigger] values[i] is Some ==> values[i]->Some_0 < two_pow(bits)
}

/// The largest present code, or zero where none is present.
pub open spec fn max_present(values: Seq<Option<u64>>) -> u64
    decreases values.len(),
{
    if values.len() == 0 {
        0
    } else {
        let rest = max_present(values.drop_last());
        match values.last() {
            Some(v) => if v > rest {
                v
            } else {
                rest
            },
            None => rest,
        }
    }
}

/// A nullable integer column, bit-packed at the width of its largest present value.
pub struct LiquidPrimitiveArray {
    kind: PrimitiveKind,
    codes: BitPackedArray,
    validity: BitPackedArray,
}

impl View for LiquidPrimitiveArray {
    type V = Seq<Option<u64>>;

    closed spec fn view(&self) -> Seq<Option<u64>> {
        with_validity(self.codes@, self.validity@)
    }
}

impl LiquidPrimitiveArray {
    /// The type of the values.
    pub closed spec fn kind_spec(&self) -> PrimitiveKind {
        self.kind
    }

    /// The width, in bits, at which the values are packed.
    pub closed spec fn width(&self) -> nat {
        self.codes.width()
    }

    /// The bytes that the array reports as resident.
    pub closed spec fn memory_size(&self) -> nat {
        ((self.codes.word_count() + self.validity.word_count()) * 8 + 2
            * crate::bit_pack::PACKED_OVERHEAD + PRIMITIVE_OVERHEAD) as nat
    }

    pub closed spec fn wf(&self) -> bool {
        &&& self.codes.wf()
        &&& self.validity.wf()
        &&& self.validity.width() == 1
        &&& self.codes@.len() == self.validity@.len()
        &&& codes_fit(self@, self.kind.bits_spec())
    }

    /// Packs `values`, each the code of a value of type `kind` read as
    /// unsigned; `None` is a null. Nulls are packed as zero.
    pub fn from_codes(kind: PrimitiveKind, values: &Vec<Option<u64>>) -> (r: Self)
        requires
            values.len() * 64 <= usize::MAX,
            codes_fit(values@, kind.bits_spec()),
        ensures
            r.wf(),
            r@ == values@,
            r.kind_spec() == kind,
            is_min_bit_width(max_present(values@), r.width()),
    {
        let n = values.len();
        let mut codes: Vec<u64> = Vec::new();
        let mut valid: Vec<u64> = Vec::new();
        let mut max: u64 = 0;
        let mut i: usize = 0;
        while i < n
            invariant
                i <= n,
                n == values@.len(),
                codes@.len() == i,
                valid@.len() == i,
                max == max_present(values@.take(i as int)),
                with_validity(codes@, valid@) == values@.take(i as int),
                forall|q: int| 0 <= q < i ==> #[trigger] codes@[q] <= max,
                forall|q: int| 0 <= q < i ==> #[trigger] valid@[q] <= 1,
            decreases n - i,
        {
            assert(values@.take(i + 1).drop_last() =~= values@.take(i as int));
            match values[i] {
                Some(v) => {
                    codes.push(v);
                    valid.push(1u64);
                    if v > max {
                        max = v;
                    }
                },
                None => {
                    codes.push(0u64);
                    valid.push(0u64);
                },
            }
            i = i + 1;
            assert(with_validity(codes@, valid@) =~= values@.take(i as int));
        }
        assert(values@.take(n as int) =~= values@);
        let w = get_bit_width(max);
        assert(all_fit(codes@, w as nat));
        assert(two_pow(1) == 2) by {
            assert(two_pow(0) == 1);
        }
        assert(all_fit(valid@, 1));
        let packed = BitPackedArray::new(&codes, w);
        let flags = BitPackedArray::new(&valid, 1);
        let r = LiquidPrimitiveArray { kind, codes: packed, validity: flags };
        assert(r@ =~= values@);
        r
    }

    /// Every present code fits the width of the array's type.
    pub proof fn lemma_codes_fit(&self)
        requires
            self.wf(),
        ensures
            codes_fit(self@, self.kind_spec().bits_spec()),
    {
    }

    /// The number of rows.
    pub fn len(&self) -> (r: usize)
        requires
            self.wf(),
        ensures
            r == self@.len(),
    {
        self.codes.len()
    }

    /// Whether the array has no rows.
    pub fn is_empty(&self) -> (r: bool)
        requires
            self.wf(),
        ensures
            r == (self@.len() == 0),
    {
        self.len() == 0
    }

    /// The type of the values.
    pub fn kind(&self) -> (r: PrimitiveKind)
        ensures
            r == self.kind_spec(),
    {
        self.kind
    }

    /// The width, in bits, at which the values are packed.
    pub fn bit_width(&self) -> (r: u8)
        requires
            self.wf(),
        ensures
            r == self.width(),
    {
        self.codes.bit_width()
    }

    /// The value at row `i`, or `None` where it is null.
    pub fn get(&self, i: usize) -> (r: Option<u64>)
        requires
            self.wf(),
            i < self@.len(),
        ensures
            r == self@[i as int],
    {
        if self.validity.get(i) == 1 {
            Some(self.codes.get(i))
        } else {
            None
        }
    }

    /// Every row unpacked, nulls where they were: the codes that built the array.
    pub fn to_codes(&self) -> (r: Vec<Option<u64>>)
        requires
            self.wf(),
        ensures
            r@ == self@,
    {
        let n = self.len();
        let mut out: Vec<Option<u64>> = Vec::new();
        let mut i: usize = 0;
        while i < n
            invariant
                self.wf(),
                i <= n,
                n == self@.len(),
                out@ == self@.take(i as int),
            decreases n - i,
        {
            out.push(self.get(i));
            i = i + 1;
            assert(out@ =~= self@.take(i as int));
        }
        assert(out@ =~= self@);
        out
    }

    /// A new array of the selected rows, packed at the same width.
    pub fn filter(&self, selection: &Vec<bool>) -> (r: Self)
        requires
            self.wf(),
            selection@.len() == self@.len(),
        ensures
            r.wf(),
            r@ == select_rows(self@, selection@),
            r@.len() == count_selected(selection@),
            r.kind_spec() == self.kind_spec(),
            r.width() == self.width(),
            r.memory_size() <= self.memory_size(),
    {
        let codes = self.codes.filter(selection);
        let validity = self.validity.filter(selection);
        let r = LiquidPrimitiveArray { kind: self.kind, codes, validity };
        proof {
            lemma_with_validity_select(self.codes@, self.validity@, selection@);
            lemma_select_rows_len(self@, selection@);
            lemma_select_rows_len(self.codes@, selection@);
            lemma_select_rows_len(self.validity@, selection@);
            lemma_count_selected_bound(selection@);
            r.codes.lemma_word_count_monotone(&self.codes);
            r.validity.lemma_word_count_monotone(&self.validity);
            assert forall|i: int|
                0 <= i < r@.len() && #[trigger] r@[i] is Some implies r@[i]->Some_0 < two_pow(
                self.kind.bits_spec(),
            ) by {
                lemma_select_fits(self@, selection@, self.kind.bits_spec(), i);
            }
        }
        r
    }

    /// Bytes held by the packed codes, the packed validity flags and the fields beside them.
    pub fn get_array_memory_size(&self) -> (r: usize)
        requires
            self.wf(),
        ensures
            r == self.memory_size(),
            r == (words_needed(self@.len() as int, self.width() as int) + words_needed(
                self@.len() as int,
                1,
            )) * 8 + 2 * PACKED_OVERHEAD + PRIMITIVE_OVERHEAD,
    {
        proof {
            self.codes.lemma_size_bound();
            self.validity.lemma_size_bound();
        }
        self.codes.get_array_memory_size() + self.validity.get_array_memory_size()
            + PRIMITIVE_OVERHEAD
    }
}

proof fn lemma_select_fits(s: Seq<Option<u64>>, m: Seq<bool>, bits: nat, i: int)
    requires
        codes_fit(s, bits),
        s.len() == m.len(),
        0 <= i < select_rows(s, m).len(),
        select_rows(s, m)[i] is Some,
    ensures
        select_rows(s, m)[i]->Some_0 < two_pow(bits),
    decreases s.len(),
{
    if s.len() > 0 {
        let rest = select_rows(s.drop_last(), m.drop_last());
        if i < rest.len() {
            lemma_select_fits(s.drop_last(), m.drop_last(), bits, i);
        }
    }
}

} // verus!
