use vstd::prelude::*;

use crate::bit_pack::{BitPackedArray, all_fit};
use crate::bit_width::two_pow;
use crate::fsst::{FsstArray, byte_rows, bytes_equal, trained_symbols, first_occurrences, lemma_push_chunk};
use crate::selection::{
    select_rows,
    count_selected,
    lemma_select_rows_len,
    lemma_count_selected_bound,
    with_validity,
    lemma_with_validity_select,
};

verus! {

/// A nullable column of byte strings, compressed against one table of symbols.
pub struct LiquidStringArray {
    strings: FsstArray,
    validity: BitPackedArray,
}

impl View for LiquidStringArray {
    type V = Seq<Option<Seq<u8>>>;

    closed spec fn view(&self) -> Seq<Option<Seq<u8>>> {
        with_validity(self.strings@, self.validity@)
    }
}

/// The bytes held by rows of optional byte vectors.
pub open spec fn optional_byte_rows(s: Seq<Option<Vec<u8>>>) -> Seq<Option<Seq<u8>>> {
    s.map_values(
        |v: Option<Vec<u8>>|
            match v {
                Some(b) => Some(b@),
                None => None,
            },
    )
}

/// The bytes that a column stores per row: a null row is stored empty.
pub open spec fn stored_bytes(s: Seq<Option<Vec<u8>>>) -> Seq<Seq<u8>> {
    s.map_values(
        |v: Option<Vec<u8>>|
            match v {
                Some(b) => b@,
                None => Seq::<u8>::empty(),
            },
    )
}

impl LiquidStringArray {
    /// The table of symbols that the rows are compressed against.
    pub closed spec fn symbols(&self) -> Seq<Seq<u8>> {
        self.strings.symbols()
    }

    /// The bytes that the array reports as resident, before saturation.
    pub closed spec fn memory_size(&self) -> nat {
        (self.strings.memory_size() + self.validity.word_count() * 8
            + crate::bit_pack::PACKED_OVERHEAD) as nat
    }

    pub closed spec fn wf(&self) -> bool {
        &&& self.strings.wf()
        &&& self.validity.wf()
        &&& self.validity.width() == 1
        &&& self.strings@.len() == self.validity@.len()
    }

    /// Trains a table from the present rows of `values` and compresses them;
    /// `None` is a null, held as an empty string.
    pub fn from_strings(values: &Vec<Option<Vec<u8>>>) -> (r: Self)
        requires
            values.len() * 64 <= usize::MAX,
        ensures
            r.wf(),
            r@ == optional_byte_rows(values@),
            r.symbols() == trained_symbols(stored_bytes(values@)),
    {
        let n = values.len();
        let mut rows: Vec<Vec<u8>> = Vec::new();
        let mut valid: Vec<u64> = Vec::new();
        let mut i: usize = 0;
        while i < n
            invariant
                i <= n,
                n == values@.len(),
                rows@.len() == i,
                valid@.len() == i,
                with_validity(byte_rows(rows@), valid@) == optional_byte_rows(values@).take(i as int),
                byte_rows(rows@) == stored_bytes(values@).take(i as int),
                forall|q: int| 0 <= q < i ==> #[trigger] valid@[q] <= 1,
            decreases n - i,
        {
            match &values[i] {
                Some(v) => {
                    let mut copy: Vec<u8> = Vec::new();
                    let mut j: usize = 0;
                    while j < v.len()
                        invariant
                            j <= v@.len(),
                            copy@ == v@.take(j as int),
                        decreases v@.len() - j,
                    {
                        copy.push(v[j]);
                        j = j + 1;
                        assert(copy@ =~= v@.take(j as int));
                    }
                    assert(v@.take(j as int) =~= v@);
                    rows.push(copy);
                    valid.push(1u64);
                },
                None => {
                    rows.push(Vec::new());
                    valid.push(0u64);
                },
            }
            i = i + 1;
            assert(with_validity(byte_rows(rows@), valid@) =~= optional_byte_rows(values@).take(
                i as int,
            ));
            assert(byte_rows(rows@) =~= stored_bytes(values@).take(i as int));
        }
        assert(optional_byte_rows(values@).take(n as int) =~= optional_byte_rows(values@));
        assert(stored_bytes(values@).take(n as int) =~= stored_bytes(values@));
        assert(two_pow(1) == 2) by {
            assert(two_pow(0) == 1);
        }
        assert(all_fit(valid@, 1));
        let strings = FsstArray::new(&rows);
        let validity = BitPackedArray::new(&valid, 1);
        LiquidStringArray { strings, validity }
    }

    /// The number of rows.
    pub fn len(&self) -> (r: usize)
        requires
            self.wf(),
        ensures
            r == self@.len(),
    {
        self.validity.len()
    }

    /// Whether the array has no rows.
    pub fn is_empty(&self) -> (r: bool)
        requires
            self.wf(),
        ensures
            r == (self@.len() == 0),
    {
        self.len() == 0
    }

    /// Whether `sym` is one of the symbols of the table.
    pub fn has_symbol(&self, sym: &Vec<u8>) -> (r: bool)
        requires
            self.wf(),
        ensures
            r == self.symbols().contains(sym@),
    {
        self.strings.has_symbol(sym)
    }

    /// The number of symbols in the table.
    pub fn symbol_count(&self) -> (r: usize)
        requires
            self.wf(),
        ensures
            r == self.symbols().len(),
    {
        self.strings.symbol_count()
    }

    /// The bytes of row `i`, or `None` where it is null.
    pub fn get(&self, i: usize) -> (r: Option<Vec<u8>>)
        requires
            self.wf(),
            i < self@.len(),
        ensures
            match r {
                Some(b) => self@[i as int] == Some(b@),
                None => self@[i as int] is None,
            },
    {
        if self.validity.get(i) == 1 {
            Some(self.strings.get(i))
        } else {
            None
        }
    }

    /// Every row decoded, nulls where they were.
    pub fn to_strings(&self) -> (r: Vec<Option<Vec<u8>>>)
        requires
            self.wf(),
        ensures
            optional_byte_rows(r@) == self@,
    {
        let n = self.len();
        let mut out: Vec<Option<Vec<u8>>> = Vec::new();
        let mut i: usize = 0;
        while i < n
            invariant
                self.wf(),
                i <= n,
                n == self@.len(),
                optional_byte_rows(out@) == self@.take(i as int),
            decreases n - i,
        {
            let row = self.get(i);
            let ghost prev = out@;
            out.push(row);
            assert(optional_byte_rows(out@) =~= optional_byte_rows(prev).push(self@[i as int]));
            i = i + 1;
            assert(optional_byte_rows(out@) =~= self@.take(i as int));
        }
        assert(self@.take(n as int) =~= self@);
        out
    }

    /// A new array of the selected rows, against the same table.
    pub fn filter(&self, selection: &Vec<bool>) -> (r: Self)
        requires
            self.wf(),
            selection@.len() == self@.len(),
        ensures
            r.wf(),
            r@ == select_rows(self@, selection@),
            r@.len() == count_selected(selection@),
            r.symbols() == self.symbols(),
            r.memory_size() <= self.memory_size(),
    {
        let strings = self.strings.filter(selection);
        let validity = self.validity.filter(selection);
        let r = LiquidStringArray { strings, validity };
        proof {
            lemma_with_validity_select(self.strings@, self.validity@, selection@);
            lemma_select_rows_len(self@, selection@);
            lemma_select_rows_len(self.strings@, selection@);
            lemma_select_rows_len(self.validity@, selection@);
            lemma_count_selected_bound(selection@);
            r.validity.lemma_word_count_monotone(&self.validity);
        }
        r
    }

    /// The bytes that the array holds, or `usize::MAX` where that does not fit.
    pub fn get_array_memory_size(&self) -> (r: usize)
        requires
            self.wf(),
        ensures
            r == if self.memory_size() > usize::MAX {
                usize::MAX as nat
            } else {
                self.memory_size()
            },
    {
        let a = self.strings.get_array_memory_size();
        let b = self.validity.get_array_memory_size();
        if a > usize::MAX - b {
            usize::MAX
        } else {
            a + b
        }
    }
}

/// Whether `values` holds no byte string twice.
pub open spec fn all_distinct(values: Seq<Seq<u8>>) -> bool {
    forall|a: int, b: int| 0 <= a < b < values.len() ==> values[a] != values[b]
}

/// `keys` and `values` spell `rows`: a null row has no key, and a present
/// row's key picks its bytes out of `values`.
pub open spec fn spells_rows(
    values: Seq<Seq<u8>>,
    keys: Seq<Option<usize>>,
    rows: Seq<Option<Seq<u8>>>,
) -> bool {
    &&& keys.len() == rows.len()
    &&& forall|i: int|
        0 <= i < keys.len() ==> match #[trigger] keys[i] {
            Some(k) => k < values.len() && rows[i] == Some(values[k as int]),
            None => rows[i] is None,
        }
}

/// The present rows, in order.
pub open spec fn present_rows(rows: Seq<Option<Seq<u8>>>) -> Seq<Seq<u8>>
    decreases rows.len(),
{
    if rows.len() == 0 {
        Seq::empty()
    } else {
        match rows.last() {
            Some(b) => present_rows(rows.drop_last()).push(b),
            None => present_rows(rows.drop_last()),
        }
    }
}

/// Whether a dictionary of `distinct` values serves `rows` rows better than
/// flat strings: it does when each value repeats twice on average.
pub fn dictionary_is_cheaper(distinct: usize, rows: usize) -> (r: bool)
    ensures
        r == (distinct * 2 <= rows),
{
    distinct <= rows / 2
}

impl LiquidStringArray {
    /// The rows as a dictionary: the distinct present rows in order of first
    /// occurrence, and for each row the index of its value, or `None` for a null.
    pub fn to_dictionary(&self) -> (r: (Vec<Vec<u8>>, Vec<Option<usize>>))
        requires
            self.wf(),
        ensures
            all_distinct(byte_rows(r.0@)),
            byte_rows(r.0@) == first_occurrences(present_rows(self@)),
            spells_rows(byte_rows(r.0@), r.1@, self@),
    {
        let rows = self.to_strings();
        let mut values: Vec<Vec<u8>> = Vec::new();
        let mut keys: Vec<Option<usize>> = Vec::new();
        let mut i: usize = 0;
        while i < rows.len()
            invariant
                i <= rows@.len(),
                optional_byte_rows(rows@) == self@,
                all_distinct(byte_rows(values@)),
                byte_rows(values@) == first_occurrences(present_rows(self@.take(i as int))),
                spells_rows(byte_rows(values@), keys@, self@.take(i as int)),
            decreases rows@.len() - i,
        {
            let ghost prev_values = byte_rows(values@);
            let ghost prev_keys = keys@;
            let ghost done = present_rows(self@.take(i as int));
            assert(optional_byte_rows(rows@)[i as int] == self@[i as int]);
            assert(self@.take(i + 1).drop_last() =~= self@.take(i as int));
            match &rows[i] {
                Some(row) => {
                    let mut k: usize = 0;
                    let mut found = false;
                    while k < values.len() && !found
                        invariant
                            k <= values@.len(),
                            found ==> k < values@.len() && values@[k as int]@ == row@,
                            !found ==> forall|q: int| 0 <= q < k ==> values@[q]@ != row@,
                        decreases values@.len() - k + if found { 0int } else { 1int },
                    {
                        if bytes_equal(&values[k], row) {
                            found = true;
                        } else {
                            k = k + 1;
                        }
                    }
                    proof {
                        lemma_push_chunk(done, row@);
                        assert(prev_values.contains(row@) == found) by {
                            if found {
                                assert(prev_values[k as int] == row@);
                            } else if prev_values.contains(row@) {
                                let q = choose|q: int| 0 <= q < prev_values.len() && prev_values[q] == row@;
                                assert(values@[q]@ == row@);
                            }
                        }
                    }
                    if found {
                        keys.push(Some(k));
                    } else {
                        let mut copy: Vec<u8> = Vec::new();
                        let mut j: usize = 0;
                        while j < row.len()
                            invariant
                                j <= row@.len(),
                                copy@ == row@.take(j as int),
                            decreases row@.len() - j,
                        {
                            copy.push(row[j]);
                            j = j + 1;
                            assert(copy@ =~= row@.take(j as int));
                        }
                        assert(row@.take(j as int) =~= row@);
                        let key = values.len();
                        values.push(copy);
                        keys.push(Some(key));
                        assert(byte_rows(values@) =~= prev_values.push(row@));
                    }
                },
                None => {
                    keys.push(None);
                },
            }
            i = i + 1;
            proof {
                assert forall|q: int| 0 <= q < keys@.len() implies match #[trigger] keys@[q] {
                    Some(k) => k < byte_rows(values@).len() && self@.take(i as int)[q] == Some(
                        byte_rows(values@)[k as int],
                    ),
                    None => self@.take(i as int)[q] is None,
                } by {
                    if q < i - 1 {
                        assert(self@.take(i - 1)[q] == self@.take(i as int)[q]);
                        assert(prev_keys[q] == keys@[q]);
                    }
                }
            }
        }
        assert(self@.take(rows@.len() as int) =~= self@);
        (values, keys)
    }
}

} // verus!
