use vstd::prelude::*;
use vstd::arithmetic::div_mod::{lemma_fundamental_div_mod, lemma_basic_div, lemma_div_is_ordered, lemma_fundamental_div_mod_converse};
use vstd::arithmetic::mul::lemma_mul_inequality;
use vstd::arithmetic::power2::{pow2, lemma_pow2_unfold, lemma2_to64, lemma2_to64_rest};
use vstd::bits::lemma_u64_shr_is_div;

use crate::bit_width::two_pow;
use crate::selection::{count_selected, select_rows, lemma_select_rows_step, lemma_select_rows_len, lemma_count_selected_bound};

verus! {

/// Bytes that a packed array holds besides its words.
pub const PACKED_OVERHEAD: usize = 40;

/// Bit `j` of `v`.
pub open spec fn value_bit(v: u64, j: int) -> bool {
    (v >> (j as u64)) & 1u64 == 1u64
}

/// Bit `k` of a buffer of words, counted from the low bit of the first word.
pub open spec fn buffer_bit(words: Seq<u64>, k: int) -> bool {
    (words[k / 64] >> ((k % 64) as u64)) & 1u64 == 1u64
}

/// The bit that position `k` holds when `values` are laid out `w` bits each.
pub open spec fn packed_bit(values: Seq<u64>, w: int, k: int) -> bool {
    value_bit(values[k / w], k % w)
}

/// The number of words that hold `n` values of `w` bits.
pub open spec fn words_needed(n: int, w: int) -> int {
    (n * w + 63) / 64
}

/// Every value lies in `[0, 2^w)`.
pub open spec fn all_fit(values: Seq<u64>, w: nat) -> bool {
    forall|i: int| 0 <= i < values.len() ==> #[trigger] values[i] < two_pow(w)
}

/// `w` bits can hold `v`, stated on the bits.
pub open spec fn fits_bits(v: u64, w: u64) -> bool {
    w >= 64 || v >> w == 0
}

proof fn lemma_two_pow_is_pow2(n: nat)
    ensures
        two_pow(n) == pow2(n),
    decreases n,
{
    if n > 0 {
        lemma_two_pow_is_pow2((n - 1) as nat);
        lemma_pow2_unfold(n);
    } else {
        lemma2_to64();
    }
}

proof fn lemma_fits_bits(v: u64, w: u64)
    requires
        1 <= w <= 64,
    ensures
        v < two_pow(w as nat) <==> fits_bits(v, w),
{
    lemma_two_pow_is_pow2(w as nat);
    lemma2_to64();
    lemma2_to64_rest();
    if w < 64 {
        lemma_u64_shr_is_div(v, w);
        let p = pow2(w as nat) as int;
        lemma_fundamental_div_mod(v as int, p);
        if v < p {
            lemma_basic_div(v as int, p);
        }
        assert(v < p ==> v as int / p == 0);
        assert(v as int / p == 0 ==> v < p) by (nonlinear_arith)
            requires v as int == p * (v as int / p) + v as int % p, v as int % p < p;
    }
}

proof fn lemma_zero_bit(c: u64)
    requires
        c < 64,
    ensures
        (0u64 >> c) & 1u64 != 1u64,
{
    assert((0u64 >> c) & 1u64 != 1u64) by (bit_vector)
        requires c < 64;
}

proof fn lemma_set_bit(x: u64, b: u64, c: u64)
    requires
        b < 64,
        c < 64,
    ensures
        ((x | (1u64 << b)) >> c) & 1u64 == if b == c {
            1u64
        } else {
            (x >> c) & 1u64
        },
{
    assert(((x | (1u64 << b)) >> c) & 1u64 == if b == c {
        1u64
    } else {
        (x >> c) & 1u64
    }) by (bit_vector)
        requires b < 64, c < 64;
}

proof fn lemma_mask_start(v: u64)
    ensures
        v & 0u64 == 0u64,
{
    assert(v & 0u64 == 0u64) by (bit_vector);
}

proof fn lemma_mask_step(v: u64, r: u64, m: u64, j: u64)
    requires
        j < 64,
        r == v & m,
        m == (1u64 << j) - 1u64,
    ensures
        (if (v >> j) & 1u64 == 1u64 {
            r | (1u64 << j)
        } else {
            r
        }) == v & (m | (1u64 << j)),
        j + 1 < 64 ==> (m | (1u64 << j)) == (1u64 << vstd::prelude::add(j, 1u64)) - 1u64,
        j + 1 == 64 ==> (m | (1u64 << j)) == 0xffff_ffff_ffff_ffffu64,
{
    assert((if (v >> j) & 1u64 == 1u64 {
        r | (1u64 << j)
    } else {
        r
    }) == v & (m | (1u64 << j))) by (bit_vector)
        requires j < 64, r == v & m, m == (1u64 << j) - 1u64;
    assert(j + 1 < 64 ==> (m | (1u64 << j)) == (1u64 << vstd::prelude::add(j, 1u64)) - 1u64) by (bit_vector)
        requires j < 64, m == (1u64 << j) - 1u64;
    assert(j + 1 == 64 ==> (m | (1u64 << j)) == 0xffff_ffff_ffff_ffffu64) by (bit_vector)
        requires j < 64, m == (1u64 << j) - 1u64;
}

proof fn lemma_mask_end(v: u64, w: u64, m: u64)
    requires
        1 <= w <= 64,
        fits_bits(v, w),
        w < 64 ==> m == (1u64 << w) - 1u64,
        w == 64 ==> m == 0xffff_ffff_ffff_ffffu64,
    ensures
        v & m == v,
{
    if w < 64 {
        assert(v & m == v) by (bit_vector)
            requires w < 64, v >> w == 0u64, m == (1u64 << w) - 1u64;
    } else {
        assert(v & m == v) by (bit_vector)
            requires m == 0xffff_ffff_ffff_ffffu64;
    }
}

/// Position `j` of row `i` lies where row `i`'s bits are.
proof fn lemma_position(i: int, j: int, w: int, n: int)
    requires
        0 <= i < n,
        0 <= j < w,
    ensures
        (i * w + j) / w == i,
        (i * w + j) % w == j,
        0 <= i * w + j < n * w,
{
    lemma_fundamental_div_mod_converse(i * w + j, w, i, j);
    lemma_mul_inequality(i + 1, n, w);
    assert((i + 1) * w == i * w + w) by (nonlinear_arith);
    assert(0 <= i * w) by (nonlinear_arith)
        requires 0 <= i, 0 <= w;
}

/// Unsigned integers packed at a fixed width, with no byte alignment.
pub struct BitPackedArray {
    words: Vec<u64>,
    bit_width: u8,
    len: usize,
    values: Ghost<Seq<u64>>,
}

impl View for BitPackedArray {
    type V = Seq<u64>;

    closed spec fn view(&self) -> Seq<u64> {
        self.values@
    }
}

impl BitPackedArray {
    /// The width, in bits, of every slot.
    pub closed spec fn width(&self) -> nat {
        self.bit_width as nat
    }

    /// The number of words in the packed buffer.
    pub closed spec fn word_count(&self) -> nat {
        self.words@.len()
    }

    /// The buffer holds exactly the bits of the values at the given width.
    pub closed spec fn wf(&self) -> bool {
        &&& 1 <= self.bit_width <= 64
        &&& self.len == self.values@.len()
        &&& self.len * 64 <= usize::MAX
        &&& self.words@.len() <= self.len
        &&& self.words@.len() == words_needed(self.len as int, self.bit_width as int)
        &&& all_fit(self.values@, self.bit_width as nat)
        &&& forall|k: int|
            0 <= k < self.len * self.bit_width ==> #[trigger] buffer_bit(self.words@, k)
                == packed_bit(self.values@, self.bit_width as int, k)
    }

    /// Packs `values` at `bit_width` bits each.
    pub fn new(values: &Vec<u64>, bit_width: u8) -> (r: Self)
        requires
            1 <= bit_width <= 64,
            values.len() * 64 <= usize::MAX,
            all_fit(values@, bit_width as nat),
        ensures
            r.wf(),
            r@ == values@,
            r.width() == bit_width,
    {
        let n = values.len();
        let w = bit_width as usize;
        proof {
            assert(n * w <= n * 64) by (nonlinear_arith)
                requires w <= 64;
        }
        let total = n * w;
        let nwords = (total + 63) / 64;
        proof {
            lemma_div_is_ordered(total + 63, 64 * n + 63, 64);
            lemma_fundamental_div_mod_converse(64 * n + 63, 64, n as int, 63);
        }
        let mut words: Vec<u64> = Vec::new();
        let mut t: usize = 0;
        while t < nwords
            invariant
                t <= nwords,
                words@.len() == t,
                forall|q: int| 0 <= q < t ==> #[trigger] words@[q] == 0u64,
            decreases nwords - t,
        {
            words.push(0u64);
            t = t + 1;
        }
        proof {
            assert forall|p: int| 0 <= p < 64 * nwords implies !#[trigger] buffer_bit(words@, p) by {
                lemma_zero_bit((p % 64) as u64);
            }
        }
        let mut k: usize = 0;
        while k < total
            invariant
                k <= total,
                total == n * w,
                n == values@.len(),
                w == bit_width,
                1 <= w <= 64,
                nwords == (total + 63) / 64,
                words@.len() == nwords,
                forall|p: int| 0 <= p < k ==> #[trigger] buffer_bit(words@, p) == packed_bit(values@, w as int, p),
                forall|p: int| k <= p < 64 * nwords ==> !#[trigger] buffer_bit(words@, p),
            decreases total - k,
        {
            proof {
                assert(k / w < n) by (nonlinear_arith)
                    requires k < n * w, w > 0;
            }
            let v = values[k / w];
            let j = k % w;
            if (v >> (j as u64)) & 1u64 == 1u64 {
                let q = k / 64;
                let b = (k % 64) as u64;
                let old_words = Ghost(words@);
                let cur = words[q];
                words.set(q, cur | (1u64 << b));
                proof {
                    assert forall|p: int| 0 <= p < 64 * nwords implies #[trigger] buffer_bit(words@, p)
                        == if p == k { true } else { buffer_bit(old_words@, p) } by {
                        if p / 64 == q {
                            lemma_set_bit(cur, b, (p % 64) as u64);
                        }
                    }
                }
            }
            k = k + 1;
        }
        BitPackedArray { words, bit_width, len: n, values: Ghost(values@) }
    }

    /// The number of values.
    pub fn len(&self) -> (r: usize)
        requires
            self.wf(),
        ensures
            r == self@.len(),
    {
        self.len
    }

    /// The width, in bits, of every slot.
    pub fn bit_width(&self) -> (r: u8)
        requires
            self.wf(),
        ensures
            r == self.width(),
    {
        self.bit_width
    }

    /// The value at row `i`, read from its bits alone.
    pub fn get(&self, i: usize) -> (r: u64)
        requires
            self.wf(),
            i < self@.len(),
        ensures
            r == self@[i as int],
    {
        let w = self.bit_width as usize;
        let ghost v = self.values@[i as int];
        proof {
            lemma_mul_inequality(i as int + 1, self.len as int, w as int);
            lemma_mul_inequality(w as int, 64, self.len as int);
            assert((i + 1) * w == i * w + w && self.len * w == w * self.len && self.len * 64 == 64 * self.len) by (nonlinear_arith);
        }
        let base = i * w;
        let mut r: u64 = 0;
        let mut m: u64 = 0;
        let mut j: usize = 0;
        proof {
            lemma_mask_start(v);
            assert((1u64 << 0u64) - 1u64 == 0u64) by (bit_vector);
            assert(self.len * w <= self.len * 64) by (nonlinear_arith)
                requires w <= 64;
        }
        while j < w
            invariant
                self.wf(),
                i < self.len,
                w == self.bit_width,
                v == self.values@[i as int],
                base == i * w,
                base + w <= self.len * w,
                self.len * w <= usize::MAX,
                j <= w,
                r == v & m,
                j < 64 ==> m == (1u64 << (j as u64)) - 1u64,
                j == 64 ==> m == 0xffff_ffff_ffff_ffffu64,
            decreases w - j,
        {
            let k = base + j;
            proof {
                lemma_position(i as int, j as int, w as int, self.len as int);
                assert(buffer_bit(self.words@, k as int) == packed_bit(self.values@, w as int, k as int));
            }
            let word = self.words[k / 64];
            let bit = (word >> ((k % 64) as u64)) & 1u64;
            proof {
                lemma_mask_step(v, r, m, j as u64);
            }
            if bit == 1u64 {
                r = r | (1u64 << (j as u64));
            }
            m = m | (1u64 << (j as u64));
            j = j + 1;
        }
        proof {
            lemma_fits_bits(v, w as u64);
            lemma_mask_end(v, w as u64, m);
        }
        r
    }

    /// All values, in order.
    pub fn to_vec(&self) -> (r: Vec<u64>)
        requires
            self.wf(),
        ensures
            r@ == self@,
    {
        let mut out: Vec<u64> = Vec::new();
        let mut i: usize = 0;
        while i < self.len
            invariant
                self.wf(),
                i <= self.len,
                out@ == self@.take(i as int),
            decreases self.len - i,
        {
            out.push(self.get(i));
            i = i + 1;
            assert(out@ =~= self@.take(i as int));
        }
        assert(out@ =~= self@);
        out
    }

    /// A new array of the selected rows, packed at the same width.
    pub fn filter(&self, selection: &Vec<bool>) -> (r: Self)
        requires
            self.wf(),
            selection@.len() == self@.len(),
        ensures
            r.wf(),
            r@ == select_rows(self@, selection@),
            r.width() == self.width(),
    {
        let mut kept: Vec<u64> = Vec::new();
        let mut i: usize = 0;
        while i < self.len
            invariant
                self.wf(),
                i <= self.len,
                selection@.len() == self.len,
                kept@ == select_rows(self@.take(i as int), selection@.take(i as int)),
                kept@.len() == count_selected(selection@.take(i as int)),
                all_fit(kept@, self.bit_width as nat),
            decreases self.len - i,
        {
            proof {
                lemma_select_rows_step(self@, selection@, i as int);
            }
            if selection[i] {
                let v = self.get(i);
                kept.push(v);
            }
            i = i + 1;
        }
        proof {
            assert(self@.take(self.len as int) =~= self@);
            assert(selection@.take(self.len as int) =~= selection@);
            lemma_count_selected_bound(selection@);
        }
        BitPackedArray::new(&kept, self.bit_width)
    }

    /// Bytes held by the packed buffer and the fields beside it.
    pub fn get_array_memory_size(&self) -> (r: usize)
        requires
            self.wf(),
        ensures
            r == self.word_count() * 8 + PACKED_OVERHEAD,
            r == words_needed(self@.len() as int, self.width() as int) * 8 + PACKED_OVERHEAD,
    {
        self.words.len() * 8 + PACKED_OVERHEAD
    }

    /// The buffer takes just the words that the rows' bits fill, and never
    /// more words than there are rows.
    pub proof fn lemma_size_bound(&self)
        requires
            self.wf(),
        ensures
            self.word_count() == words_needed(self@.len() as int, self.width() as int),
            self.word_count() <= self@.len(),
            self@.len() * 64 <= usize::MAX,
    {
    }

    /// Fewer rows at the same width take no more words.
    pub proof fn lemma_word_count_monotone(&self, other: &Self)
        requires
            self.wf(),
            other.wf(),
            self.width() == other.width(),
            self@.len() <= other@.len(),
        ensures
            self.word_count() <= other.word_count(),
    {
        lemma_mul_inequality(self.len as int, other.len as int, self.bit_width as int);
        lemma_div_is_ordered(self.len * self.bit_width + 63, other.len * other.bit_width + 63, 64);
    }
}

} // verus!
