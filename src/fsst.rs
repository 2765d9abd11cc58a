use vstd::prelude::*;

use crate::selection::{count_selected, select_rows, lemma_select_rows_step, lemma_select_rows_len};

verus! {

/// The code that marks the next byte as a literal.
pub const ESCAPE: u8 = 255;

/// The largest number of symbols a table holds.
pub const MAX_SYMBOLS: usize = 255;

/// The longest symbol, in bytes.
pub const MAX_SYMBOL_LEN: usize = 8;

/// Bytes that a string array holds besides its buffers.
pub const FSST_OVERHEAD: usize = 72;

/// The byte strings of a table of symbols.
pub open spec fn table_view(t: Seq<Vec<u8>>) -> Seq<Seq<u8>> {
    t.map_values(|v: Vec<u8>| v@)
}

/// At most 255 symbols, each one to eight bytes long.
pub open spec fn table_wf(t: Seq<Seq<u8>>) -> bool {
    &&& t.len() <= MAX_SYMBOLS
    &&& forall|i: int| 0 <= i < t.len() ==> 1 <= #[trigger] t[i].len() <= MAX_SYMBOL_LEN
}

/// `codes` is a whole number of tokens: a symbol's code, or an escape and its literal byte.
pub open spec fn decodes(t: Seq<Seq<u8>>, codes: Seq<u8>) -> bool
    decreases codes.len(),
{
    if codes.len() == 0 {
        true
    } else if codes[0] == ESCAPE {
        codes.len() >= 2 && decodes(t, codes.skip(2))
    } else {
        codes[0] < t.len() && decodes(t, codes.skip(1))
    }
}

/// The bytes that `codes` stands for under the table `t`.
pub open spec fn decode_codes(t: Seq<Seq<u8>>, codes: Seq<u8>) -> Seq<u8>
    decreases codes.len(),
{
    if codes.len() == 0 {
        Seq::empty()
    } else if codes[0] == ESCAPE {
        if codes.len() >= 2 {
            seq![codes[1]] + decode_codes(t, codes.skip(2))
        } else {
            Seq::empty()
        }
    } else if codes[0] < t.len() {
        t[codes[0] as int] + decode_codes(t, codes.skip(1))
    } else {
        Seq::empty()
    }
}

/// Decoding distributes over a split after a whole token.
pub proof fn lemma_decode_append(t: Seq<Seq<u8>>, a: Seq<u8>, b: Seq<u8>)
    requires
        decodes(t, a),
    ensures
        decodes(t, a + b) == decodes(t, b),
        decode_codes(t, a + b) == decode_codes(t, a) + decode_codes(t, b),
    decreases a.len(),
{
    if a.len() == 0 {
        assert(a + b =~= b);
    } else if a[0] == ESCAPE {
        assert((a + b).skip(2) =~= a.skip(2) + b);
        lemma_decode_append(t, a.skip(2), b);
        assert(seq![a[1]] + (decode_codes(t, a.skip(2)) + decode_codes(t, b)) =~= (seq![a[1]]
            + decode_codes(t, a.skip(2))) + decode_codes(t, b));
    } else {
        assert((a + b).skip(1) =~= a.skip(1) + b);
        lemma_decode_append(t, a.skip(1), b);
        assert(t[a[0] as int] + (decode_codes(t, a.skip(1)) + decode_codes(t, b)) =~= (t[a[0] as int]
            + decode_codes(t, a.skip(1))) + decode_codes(t, b));
    }
}

proof fn lemma_symbol_token(t: Seq<Seq<u8>>, c: u8)
    requires
        table_wf(t),
        (c as int) < t.len(),
    ensures
        decodes(t, seq![c]),
        decode_codes(t, seq![c]) == t[c as int],
{
    let e = Seq::<u8>::empty();
    assert(seq![c].skip(1) =~= e);
    assert(seq![c][0] == c);
    assert(decodes(t, e));
    assert(decode_codes(t, e) == e);
    assert(t[c as int] + e =~= t[c as int]);
}

proof fn lemma_escape_token(t: Seq<Seq<u8>>, b: u8)
    ensures
        decodes(t, seq![ESCAPE, b]),
        decode_codes(t, seq![ESCAPE, b]) == seq![b],
{
    let e = Seq::<u8>::empty();
    assert(seq![ESCAPE, b].skip(2) =~= e);
    assert(seq![ESCAPE, b][0] == ESCAPE);
    assert(seq![ESCAPE, b][1] == b);
    assert(decodes(t, e));
    assert(decode_codes(t, e) == e);
    assert(seq![b] + e =~= seq![b]);
}

/// Appends `src[start..end]` to `out`.
fn append_bytes(out: &mut Vec<u8>, src: &Vec<u8>, start: usize, end: usize)
    requires
        start <= end <= src@.len(),
    ensures
        final(out)@ == old(out)@ + src@.subrange(start as int, end as int),
{
    let mut p = start;
    while p < end
        invariant
            start <= p <= end <= src@.len(),
            out@ == old(out)@ + src@.subrange(start as int, p as int),
        decreases end - p,
    {
        out.push(src[p]);
        p = p + 1;
        assert(out@ =~= old(out)@ + src@.subrange(start as int, p as int));
    }
}

/// Whether `sym` occurs in `s` at `pos`.
fn matches_at(s: &Vec<u8>, pos: usize, sym: &Vec<u8>) -> (r: bool)
    requires
        pos <= s@.len(),
    ensures
        r == (pos + sym@.len() <= s@.len() && s@.subrange(pos as int, pos + sym@.len()) == sym@),
{
    if sym.len() > s.len() - pos {
        return false;
    }
    let n = s.len();
    let mut j: usize = 0;
    while j < sym.len()
        invariant
            n == s@.len(),
            pos + sym@.len() <= n,
            j <= sym@.len(),
            s@.subrange(pos as int, pos + j) == sym@.take(j as int),
        decreases sym@.len() - j,
    {
        if s[pos + j] != sym[j] {
            assert(s@.subrange(pos as int, pos + sym@.len())[j as int] != sym@[j as int]);
            return false;
        }
        j = j + 1;
        assert(s@.subrange(pos as int, pos + j) =~= sym@.take(j as int));
    }
    assert(sym@.take(j as int) =~= sym@);
    true
}

/// Whether two byte strings are equal.
pub fn bytes_equal(a: &Vec<u8>, b: &Vec<u8>) -> (r: bool)
    ensures
        r == (a@ == b@),
{
    if a.len() != b.len() {
        return false;
    }
    let r = matches_at(a, 0, b);
    assert(a@.subrange(0, b@.len() as int) =~= a@);
    r
}

/// Whether symbol `c` of the table starts `x`.
pub open spec fn symbol_starts(t: Seq<Seq<u8>>, x: Seq<u8>, c: int) -> bool {
    0 <= c < t.len() && t[c].len() <= x.len() && x.take(t[c].len() as int) == t[c]
}

/// The length of the chosen symbol, zero for none.
pub open spec fn choice_len(t: Seq<Seq<u8>>, b: Option<int>) -> nat {
    match b {
        Some(c) => t[c].len(),
        None => 0,
    }
}

/// Among the first `n` symbols, the first of the longest that start `x`.
pub open spec fn longest_symbol(t: Seq<Seq<u8>>, x: Seq<u8>, n: nat) -> Option<int>
    decreases n,
{
    if n == 0 {
        None
    } else {
        let b = longest_symbol(t, x, (n - 1) as nat);
        if t[n - 1].len() > choice_len(t, b) && symbol_starts(t, x, n - 1) {
            Some(n - 1)
        } else {
            b
        }
    }
}

/// The codes of `s`: at each position the code of the first of the longest
/// symbols that match there, or an escape and the byte where none does.
pub open spec fn greedy_codes(t: Seq<Seq<u8>>, s: Seq<u8>) -> Seq<u8>
    decreases s.len(),
{
    if s.len() == 0 {
        Seq::empty()
    } else {
        let b = longest_symbol(t, s, t.len());
        if b is Some && 0 < choice_len(t, b) <= s.len() {
            seq![b->Some_0 as u8] + greedy_codes(t, s.skip(choice_len(t, b) as int))
        } else {
            seq![ESCAPE, s[0]] + greedy_codes(t, s.skip(1))
        }
    }
}

proof fn lemma_longest_symbol(t: Seq<Seq<u8>>, x: Seq<u8>, n: nat)
    requires
        n <= t.len(),
    ensures
        longest_symbol(t, x, n) matches Some(c) ==> 0 <= c < n && symbol_starts(t, x, c)
            && choice_len(t, longest_symbol(t, x, n)) == t[c].len() > 0,
    decreases n,
{
    if n > 0 {
        lemma_longest_symbol(t, x, (n - 1) as nat);
    }
}

/// Encodes `s` against the table: at each position the longest symbol that
/// matches is taken, and a byte that no symbol covers is escaped.
pub fn encode_bytes(table: &Vec<Vec<u8>>, s: &Vec<u8>) -> (r: Vec<u8>)
    requires
        table_wf(table_view(table@)),
    ensures
        r@ == greedy_codes(table_view(table@), s@),
        decodes(table_view(table@), r@),
        decode_codes(table_view(table@), r@) == s@,
{
    let ghost t = table_view(table@);
    let mut out: Vec<u8> = Vec::new();
    let mut pos: usize = 0;
    assert(s@.skip(0) =~= s@);
    assert(out@ + greedy_codes(t, s@) =~= greedy_codes(t, s@));
    while pos < s.len()
        invariant
            t == table_view(table@),
            table_wf(t),
            pos <= s@.len(),
            decodes(t, out@),
            decode_codes(t, out@) == s@.take(pos as int),
            out@ + greedy_codes(t, s@.skip(pos as int)) == greedy_codes(t, s@),
        decreases s@.len() - pos,
    {
        let ghost x = s@.skip(pos as int);
        let mut best: usize = 0;
        let mut best_code: usize = 0;
        let mut c: usize = 0;
        while c < table.len()
            invariant
                t == table_view(table@),
                table_wf(t),
                pos < s@.len(),
                x == s@.skip(pos as int),
                c <= table@.len(),
                best == choice_len(t, longest_symbol(t, x, c as nat)),
                best > 0 ==> longest_symbol(t, x, c as nat) == Some(best_code as int),
                best == 0 ==> longest_symbol(t, x, c as nat) is None,
            decreases table@.len() - c,
        {
            let sym = &table[c];
            proof {
                lemma_longest_symbol(t, x, c as nat);
                if sym@.len() <= x.len() {
                    assert(x.take(sym@.len() as int) =~= s@.subrange(pos as int, pos + sym@.len()));
                }
                assert(t[c as int] == sym@);
            }
            if sym.len() > best && matches_at(s, pos, sym) {
                best = sym.len();
                best_code = c;
            }
            c = c + 1;
        }
        proof {
            lemma_longest_symbol(t, x, t.len());
        }
        let ghost prev = out@;
        if best > 0 {
            let code = best_code as u8;
            out.push(code);
            proof {
                assert(x.take(best as int) =~= s@.subrange(pos as int, pos + best));
                lemma_symbol_token(t, code);
                lemma_decode_append(t, prev, seq![code]);
                assert(prev.push(code) =~= prev + seq![code]);
                assert(s@.take(pos + best) =~= s@.take(pos as int) + s@.subrange(
                    pos as int,
                    pos + best,
                ));
                assert(x.skip(best as int) =~= s@.skip(pos + best));
                assert(prev.push(code) + greedy_codes(t, s@.skip(pos + best)) =~= prev + (seq![code]
                    + greedy_codes(t, x.skip(best as int))));
            }
            pos = pos + best;
        } else {
            let b = s[pos];
            out.push(ESCAPE);
            out.push(b);
            proof {
                lemma_escape_token(t, b);
                lemma_decode_append(t, prev, seq![ESCAPE, b]);
                assert(prev.push(ESCAPE).push(b) =~= prev + seq![ESCAPE, b]);
                assert(s@.take(pos + 1) =~= s@.take(pos as int) + seq![b]);
                assert(x.skip(1) =~= s@.skip(pos + 1));
                assert(x[0] == b);
                assert(prev.push(ESCAPE).push(b) + greedy_codes(t, s@.skip(pos + 1)) =~= prev + (seq![
                    ESCAPE,
                    b,
                ] + greedy_codes(t, x.skip(1))));
            }
            pos = pos + 1;
        }
    }
    assert(s@.take(pos as int) =~= s@);
    assert(s@.skip(pos as int) =~= Seq::<u8>::empty());
    assert(out@ + Seq::<u8>::empty() =~= out@);
    out
}

/// Decodes the codes `buf[start..end]` against the table.
pub fn decode_span(table: &Vec<Vec<u8>>, buf: &Vec<u8>, start: usize, end: usize) -> (r: Vec<u8>)
    requires
        table_wf(table_view(table@)),
        start <= end <= buf@.len(),
        decodes(table_view(table@), buf@.subrange(start as int, end as int)),
    ensures
        r@ == decode_codes(table_view(table@), buf@.subrange(start as int, end as int)),
{
    let ghost t = table_view(table@);
    let mut out: Vec<u8> = Vec::new();
    let mut p = start;
    while p < end
        invariant
            t == table_view(table@),
            table_wf(t),
            start <= p <= end <= buf@.len(),
            decodes(t, buf@.subrange(p as int, end as int)),
            out@ + decode_codes(t, buf@.subrange(p as int, end as int)) == decode_codes(
                t,
                buf@.subrange(start as int, end as int),
            ),
        decreases end - p,
    {
        let ghost x = buf@.subrange(p as int, end as int);
        let ghost prev = out@;
        let c = buf[p];
        if c == ESCAPE {
            assert(x.skip(2) =~= buf@.subrange(p + 2, end as int));
            let b = buf[p + 1];
            out.push(b);
            assert(prev + (seq![b] + decode_codes(t, x.skip(2))) =~= prev.push(b) + decode_codes(
                t,
                x.skip(2),
            ));
            p = p + 2;
        } else {
            assert(x.skip(1) =~= buf@.subrange(p + 1, end as int));
            let sym = &table[c as usize];
            let len = sym.len();
            append_bytes(&mut out, sym, 0, len);
            assert(sym@.subrange(0, len as int) =~= sym@);
            assert(prev + (t[c as int] + decode_codes(t, x.skip(1))) =~= (prev + t[c as int])
                + decode_codes(t, x.skip(1)));
            p = p + 1;
        }
    }
    assert(buf@.subrange(end as int, end as int) =~= Seq::<u8>::empty());
    assert(out@ + Seq::<u8>::empty() =~= out@);
    out
}

/// A copy of `src`.
fn copy_bytes(src: &Vec<u8>) -> (r: Vec<u8>)
    ensures
        r@ == src@,
{
    let mut out: Vec<u8> = Vec::new();
    append_bytes(&mut out, src, 0, src.len());
    assert(out@ =~= src@);
    out
}

/// The chunks that training cuts from one string: consecutive pieces of
/// eight bytes, the last one shorter, keeping those of two bytes or more.
pub open spec fn chunks_of(s: Seq<u8>) -> Seq<Seq<u8>>
    decreases s.len(),
{
    if s.len() <= MAX_SYMBOL_LEN {
        if s.len() >= 2 {
            seq![s]
        } else {
            Seq::empty()
        }
    } else {
        seq![s.take(MAX_SYMBOL_LEN as int)] + chunks_of(s.skip(MAX_SYMBOL_LEN as int))
    }
}

/// The chunks of a batch, string after string.
pub open spec fn batch_chunks(rows: Seq<Seq<u8>>) -> Seq<Seq<u8>>
    decreases rows.len(),
{
    if rows.len() == 0 {
        Seq::empty()
    } else {
        batch_chunks(rows.drop_last()) + chunks_of(rows.last())
    }
}

/// How many times `x` occurs in `xs`.
pub open spec fn occurrences(xs: Seq<Seq<u8>>, x: Seq<u8>) -> nat
    decreases xs.len(),
{
    if xs.len() == 0 {
        0
    } else {
        occurrences(xs.drop_last(), x) + if xs.last() == x {
            1nat
        } else {
            0nat
        }
    }
}

/// The distinct items of `xs`, in order of first occurrence.
pub open spec fn first_occurrences(xs: Seq<Seq<u8>>) -> Seq<Seq<u8>>
    decreases xs.len(),
{
    if xs.len() == 0 {
        Seq::empty()
    } else {
        let d = first_occurrences(xs.drop_last());
        if d.contains(xs.last()) {
            d
        } else {
            d.push(xs.last())
        }
    }
}

/// The items of `d` that occur at least twice in `xs`, in order, up to 255.
pub open spec fn repeated_capped(d: Seq<Seq<u8>>, xs: Seq<Seq<u8>>) -> Seq<Seq<u8>>
    decreases d.len(),
{
    if d.len() == 0 {
        Seq::empty()
    } else {
        let r = repeated_capped(d.drop_last(), xs);
        if occurrences(xs, d.last()) >= 2 && r.len() < MAX_SYMBOLS {
            r.push(d.last())
        } else {
            r
        }
    }
}

/// The table that training builds from `rows`: the chunks that occur at
/// least twice over the batch, in order of first occurrence, up to 255.
pub open spec fn trained_symbols(rows: Seq<Seq<u8>>) -> Seq<Seq<u8>> {
    repeated_capped(first_occurrences(batch_chunks(rows)), batch_chunks(rows))
}

/// An item is among the first occurrences exactly when it occurs, and
/// none is listed twice.
pub proof fn lemma_first_occurrences(xs: Seq<Seq<u8>>)
    ensures
        forall|x: Seq<u8>| #[trigger] first_occurrences(xs).contains(x) <==> occurrences(xs, x) > 0,
        forall|a: int, b: int|
            0 <= a < b < first_occurrences(xs).len() ==> first_occurrences(xs)[a]
                != first_occurrences(xs)[b],
    decreases xs.len(),
{
    if xs.len() > 0 {
        lemma_first_occurrences(xs.drop_last());
        let d = first_occurrences(xs.drop_last());
        if !d.contains(xs.last()) {
            assert forall|x: Seq<u8>| #[trigger] d.push(xs.last()).contains(x) <==> (d.contains(x)
                || x == xs.last()) by {
                if d.push(xs.last()).contains(x) {
                    let k = choose|k: int| 0 <= k < d.len() + 1 && d.push(xs.last())[k] == x;
                    if k < d.len() {
                        assert(d[k] == x);
                    }
                }
                if d.contains(x) {
                    let k = choose|k: int| 0 <= k < d.len() && d[k] == x;
                    assert(d.push(xs.last())[k] == x);
                }
                if x == xs.last() {
                    assert(d.push(xs.last())[d.len() as int] == x);
                }
            }
            assert forall|a: int, b: int|
                0 <= a < b < d.len() + 1 implies d.push(xs.last())[a] != d.push(xs.last())[b] by {
                if b == d.len() {
                    assert(d[a] == d.push(xs.last())[a]);
                }
            }
        }
    }
}

/// Counting and first occurrences after one more item.
pub proof fn lemma_push_chunk(xs: Seq<Seq<u8>>, c: Seq<u8>)
    ensures
        forall|x: Seq<u8>| #[trigger] occurrences(xs.push(c), x) == occurrences(xs, x) + if c == x {
            1nat
        } else {
            0nat
        },
        first_occurrences(xs.push(c)) == if first_occurrences(xs).contains(c) {
            first_occurrences(xs)
        } else {
            first_occurrences(xs).push(c)
        },
{
    assert(xs.push(c).drop_last() =~= xs);
}

/// Trains a table of symbols from a batch of strings.
///
/// Each string is cut into chunks of up to eight bytes; a chunk of two or
/// more bytes that occurs at least twice over the batch becomes a symbol,
/// in order of first occurrence, up to 255 symbols.
pub fn train_table(strings: &Vec<Vec<u8>>) -> (r: Vec<Vec<u8>>)
    ensures
        table_wf(table_view(r@)),
        table_view(r@) == trained_symbols(byte_rows(strings@)),
{
    let ghost rows = byte_rows(strings@);
    let ghost mut seen: Seq<Seq<u8>> = Seq::empty();
    let mut candidates: Vec<Vec<u8>> = Vec::new();
    let mut counts: Vec<u64> = Vec::new();
    let mut i: usize = 0;
    while i < strings.len()
        invariant
            rows == byte_rows(strings@),
            i <= strings@.len(),
            seen == batch_chunks(rows.take(i as int)),
            table_view(candidates@) == first_occurrences(seen),
            candidates@.len() == counts@.len(),
            forall|q: int|
                0 <= q < candidates@.len() ==> 2 <= #[trigger] candidates@[q]@.len() <= MAX_SYMBOL_LEN,
            forall|q: int|
                0 <= q < counts@.len() ==> #[trigger] counts@[q] as nat == if occurrences(
                    seen,
                    candidates@[q]@,
                ) >= 2 {
                    2
                } else {
                    occurrences(seen, candidates@[q]@)
                },
        decreases strings@.len() - i,
    {
        let s = &strings[i];
        let ghost before = seen;
        let ghost mut emitted: Seq<Seq<u8>> = Seq::empty();
        let mut pos: usize = 0;
        assert(s@.skip(0) =~= s@);
        assert(emitted + chunks_of(s@) =~= chunks_of(s@));
        while pos < s.len()
            invariant
                rows == byte_rows(strings@),
                i < strings@.len(),
                s@ == rows[i as int],
                pos <= s@.len(),
                seen == before + emitted,
                emitted + chunks_of(s@.skip(pos as int)) == chunks_of(s@),
                table_view(candidates@) == first_occurrences(seen),
                candidates@.len() == counts@.len(),
                forall|q: int|
                    0 <= q < candidates@.len() ==> 2 <= #[trigger] candidates@[q]@.len()
                        <= MAX_SYMBOL_LEN,
                forall|q: int|
                    0 <= q < counts@.len() ==> #[trigger] counts@[q] as nat == if occurrences(
                        seen,
                        candidates@[q]@,
                    ) >= 2 {
                        2
                    } else {
                        occurrences(seen, candidates@[q]@)
                    },
            decreases s@.len() - pos,
        {
            let ghost rest = s@.skip(pos as int);
            let end = if s.len() - pos > MAX_SYMBOL_LEN {
                pos + MAX_SYMBOL_LEN
            } else {
                s.len()
            };
            if end - pos >= 2 {
                let mut chunk: Vec<u8> = Vec::new();
                append_bytes(&mut chunk, s, pos, end);
                let ghost c = chunk@;
                proof {
                    if end < s.len() {
                        assert(c =~= rest.take(MAX_SYMBOL_LEN as int));
                        assert(rest.skip(MAX_SYMBOL_LEN as int) =~= s@.skip(end as int));
                    } else {
                        assert(c =~= rest);
                        assert(s@.skip(end as int) =~= Seq::<u8>::empty());
                        assert(chunks_of(Seq::<u8>::empty()) =~= Seq::<Seq<u8>>::empty());
                        assert(chunks_of(rest) =~= seq![c] + chunks_of(s@.skip(end as int)));
                    }
                    assert(emitted.push(c) + chunks_of(s@.skip(end as int)) =~= emitted + (seq![c]
                        + chunks_of(s@.skip(end as int))));
                    lemma_first_occurrences(seen);
                    lemma_push_chunk(seen, c);
                }
                let mut q: usize = 0;
                let mut found = false;
                while q < candidates.len() && !found
                    invariant
                        q <= candidates@.len(),
                        candidates@.len() == counts@.len(),
                        found ==> q < candidates@.len() && candidates@[q as int]@ == c,
                        !found ==> forall|k: int| 0 <= k < q ==> candidates@[k]@ != c,
                        chunk@ == c,
                    decreases candidates@.len() - q + if found { 0int } else { 1int },
                {
                    if bytes_equal(&candidates[q], &chunk) {
                        found = true;
                    } else {
                        q = q + 1;
                    }
                }
                let ghost old_counts = counts@;
                let ghost dv = table_view(candidates@);
                if found {
                    if counts[q] < 2 {
                        let n = counts[q];
                        counts.set(q, n + 1);
                    }
                    proof {
                        assert(dv[q as int] == c);
                        assert(dv.contains(c));
                        assert forall|k: int| 0 <= k < counts@.len() && k != q implies candidates@[k]@
                            != c by {
                            assert(dv[k] == candidates@[k]@);
                        }
                    }
                } else {
                    proof {
                        assert(!dv.contains(c)) by {
                            if dv.contains(c) {
                                let k = choose|k: int| 0 <= k < dv.len() && dv[k] == c;
                                assert(candidates@[k]@ == c);
                            }
                        }
                    }
                    candidates.push(chunk);
                    counts.push(1u64);
                    proof {
                        assert(table_view(candidates@) =~= dv.push(c));
                    }
                }
                proof {
                    seen = seen.push(c);
                    emitted = emitted.push(c);
                    assert(seen == before + emitted);
                }
            } else {
                proof {
                    assert(s@.skip(end as int) =~= Seq::<u8>::empty());
                    assert(chunks_of(rest) =~= Seq::<Seq<u8>>::empty());
                    assert(emitted + chunks_of(s@.skip(end as int)) =~= emitted);
                }
            }
            pos = end;
        }
        proof {
            assert(s@.skip(pos as int) =~= Seq::<u8>::empty());
            assert(chunks_of(Seq::<u8>::empty()) =~= Seq::<Seq<u8>>::empty());
            assert(emitted + Seq::<Seq<u8>>::empty() =~= emitted);
            assert(rows.take(i + 1).drop_last() =~= rows.take(i as int));
        }
        i = i + 1;
    }
    proof {
        assert(rows.take(i as int) =~= rows);
    }
    let ghost all = seen;
    let ghost d = table_view(candidates@);
    let mut table: Vec<Vec<u8>> = Vec::new();
    let mut q: usize = 0;
    while q < candidates.len()
        invariant
            all == batch_chunks(rows),
            d == table_view(candidates@),
            d == first_occurrences(all),
            q <= candidates@.len(),
            candidates@.len() == counts@.len(),
            forall|k: int|
                0 <= k < candidates@.len() ==> 2 <= #[trigger] candidates@[k]@.len() <= MAX_SYMBOL_LEN,
            forall|k: int|
                0 <= k < counts@.len() ==> #[trigger] counts@[k] as nat == if occurrences(
                    all,
                    candidates@[k]@,
                ) >= 2 {
                    2
                } else {
                    occurrences(all, candidates@[k]@)
                },
            table_wf(table_view(table@)),
            table_view(table@) == repeated_capped(d.take(q as int), all),
        decreases candidates@.len() - q,
    {
        proof {
            assert(d.take(q + 1).drop_last() =~= d.take(q as int));
            assert(d[q as int] == candidates@[q as int]@);
        }
        if counts[q] >= 2 && table.len() < MAX_SYMBOLS {
            let sym = copy_bytes(&candidates[q]);
            let ghost prev = table@;
            let ghost bytes = sym@;
            table.push(sym);
            assert(table_view(table@) =~= table_view(prev).push(bytes));
        }
        q = q + 1;
    }
    assert(d.take(q as int) =~= d);
    table
}

/// The byte strings held by a vector of byte vectors.
pub open spec fn byte_rows(s: Seq<Vec<u8>>) -> Seq<Seq<u8>> {
    s.map_values(|v: Vec<u8>| v@)
}

/// The codes of row `r` lie between its two offsets and decode to `row`.
pub open spec fn span_decodes(
    t: Seq<Seq<u8>>,
    buffer: Seq<u8>,
    offsets: Seq<usize>,
    r: int,
    row: Seq<u8>,
) -> bool {
    &&& decodes(t, buffer.subrange(offsets[r] as int, offsets[r + 1] as int))
    &&& decode_codes(t, buffer.subrange(offsets[r] as int, offsets[r + 1] as int)) == row
}

/// Offsets that start at zero, never decrease, and end at the buffer's length.
pub open spec fn offsets_wf(offsets: Seq<usize>, n: int, buffer_len: int) -> bool {
    &&& offsets.len() == n + 1
    &&& offsets[0] == 0
    &&& offsets[n] == buffer_len
    &&& forall|a: int, b: int| 0 <= a <= b <= n ==> #[trigger] offsets[a] <= #[trigger] offsets[b]
}

/// A copy of a table of symbols.
fn copy_table(table: &Vec<Vec<u8>>) -> (r: Vec<Vec<u8>>)
    ensures
        table_view(r@) == table_view(table@),
{
    let mut out: Vec<Vec<u8>> = Vec::new();
    let mut i: usize = 0;
    while i < table.len()
        invariant
            i <= table@.len(),
            table_view(out@) == table_view(table@).take(i as int),
        decreases table@.len() - i,
    {
        let sym = copy_bytes(&table[i]);
        let ghost prev = out@;
        out.push(sym);
        assert(table_view(out@) =~= table_view(prev).push(table@[i as int]@));
        i = i + 1;
        assert(table_view(out@) =~= table_view(table@).take(i as int));
    }
    assert(table_view(out@) =~= table_view(table@));
    out
}

/// Byte strings compressed against one table of symbols, with the offsets
/// that delimit each row's codes in a shared buffer.
pub struct FsstArray {
    table: Vec<Vec<u8>>,
    buffer: Vec<u8>,
    offsets: Vec<usize>,
    rows: Ghost<Seq<Seq<u8>>>,
}

impl View for FsstArray {
    type V = Seq<Seq<u8>>;

    closed spec fn view(&self) -> Seq<Seq<u8>> {
        self.rows@
    }
}

impl FsstArray {
    /// The table of symbols.
    pub closed spec fn symbols(&self) -> Seq<Seq<u8>> {
        table_view(self.table@)
    }

    /// The bytes that the array holds: a slot of eight bytes per symbol, the
    /// codes, the offsets and the fields beside them.
    pub closed spec fn memory_size(&self) -> nat {
        (self.table@.len() * 8 + self.buffer@.len() + self.offsets@.len() * 8 + FSST_OVERHEAD) as nat
    }

    pub closed spec fn wf(&self) -> bool {
        &&& table_wf(self.symbols())
        &&& offsets_wf(self.offsets@, self.rows@.len() as int, self.buffer@.len() as int)
        &&& forall|r: int|
            0 <= r < self.rows@.len() ==> #[trigger] span_decodes(
                self.symbols(),
                self.buffer@,
                self.offsets@,
                r,
                self.rows@[r],
            )
    }

    /// Compresses `strings` against a table that is given.
    pub fn with_table(table: Vec<Vec<u8>>, strings: &Vec<Vec<u8>>) -> (r: Self)
        requires
            table_wf(table_view(table@)),
        ensures
            r.wf(),
            r@ == byte_rows(strings@),
            r.symbols() == table_view(table@),
    {
        let ghost t = table_view(table@);
        let mut buffer: Vec<u8> = Vec::new();
        let mut offsets: Vec<usize> = Vec::new();
        offsets.push(0);
        let mut i: usize = 0;
        while i < strings.len()
            invariant
                t == table_view(table@),
                table_wf(t),
                i <= strings@.len(),
                offsets_wf(offsets@, i as int, buffer@.len() as int),
                forall|r: int|
                    0 <= r < i ==> #[trigger] span_decodes(t, buffer@, offsets@, r, strings@[r]@),
            decreases strings@.len() - i,
        {
            let codes = encode_bytes(&table, &strings[i]);
            let ghost prev_buf = buffer@;
            let ghost prev_offs = offsets@;
            append_bytes(&mut buffer, &codes, 0, codes.len());
            offsets.push(buffer.len());
            proof {
                assert(codes@.subrange(0, codes@.len() as int) =~= codes@);
                assert forall|r: int| 0 <= r < i + 1 implies #[trigger] span_decodes(
                    t,
                    buffer@,
                    offsets@,
                    r,
                    strings@[r]@,
                ) by {
                    if r < i {
                        assert(span_decodes(t, prev_buf, prev_offs, r, strings@[r]@));
                        assert(prev_offs[r] <= prev_offs[r + 1] <= prev_offs[i as int]);
                        assert(buffer@.subrange(offsets@[r] as int, offsets@[r + 1] as int)
                            =~= prev_buf.subrange(prev_offs[r] as int, prev_offs[r + 1] as int));
                    } else {
                        assert(buffer@.subrange(offsets@[r] as int, offsets@[r + 1] as int)
                            =~= codes@);
                    }
                }
                assert forall|a: int, b: int| 0 <= a <= b <= i + 1 implies #[trigger] offsets@[a]
                    <= #[trigger] offsets@[b] by {
                    if b <= i {
                        assert(prev_offs[a] <= prev_offs[b]);
                    } else if a <= i {
                        assert(prev_offs[a] <= prev_offs[i as int]);
                    }
                }
            }
            i = i + 1;
        }
        let ghost rows = byte_rows(strings@);
        let r = FsstArray { table, buffer, offsets, rows: Ghost(rows) };
        assert forall|q: int| 0 <= q < rows.len() implies #[trigger] span_decodes(
            r.symbols(),
            r.buffer@,
            r.offsets@,
            q,
            r.rows@[q],
        ) by {
            assert(span_decodes(t, r.buffer@, r.offsets@, q, strings@[q]@));
        }
        r
    }

    /// Trains a table from `strings` and compresses them against it.
    pub fn new(strings: &Vec<Vec<u8>>) -> (r: Self)
        ensures
            r.wf(),
            r@ == byte_rows(strings@),
            r.symbols() == trained_symbols(byte_rows(strings@)),
    {
        let table = train_table(strings);
        FsstArray::with_table(table, strings)
    }

    /// The number of rows.
    pub fn len(&self) -> (r: usize)
        requires
            self.wf(),
        ensures
            r == self@.len(),
    {
        self.offsets.len() - 1
    }

    /// The number of symbols in the table.
    pub fn symbol_count(&self) -> (r: usize)
        requires
            self.wf(),
        ensures
            r == self.symbols().len(),
    {
        self.table.len()
    }

    /// Whether `sym` is one of the table's symbols.
    pub fn has_symbol(&self, sym: &Vec<u8>) -> (r: bool)
        requires
            self.wf(),
        ensures
            r == self.symbols().contains(sym@),
    {
        let mut i: usize = 0;
        while i < self.table.len()
            invariant
                self.wf(),
                i <= self.table@.len(),
                forall|q: int| 0 <= q < i ==> self.symbols()[q] != sym@,
            decreases self.table@.len() - i,
        {
            if bytes_equal(&self.table[i], sym) {
                assert(self.symbols()[i as int] == sym@);
                return true;
            }
            i = i + 1;
        }
        false
    }

    /// The bytes of row `i`.
    pub fn get(&self, i: usize) -> (r: Vec<u8>)
        requires
            self.wf(),
            i < self@.len(),
        ensures
            r@ == self@[i as int],
    {
        assert(span_decodes(self.symbols(), self.buffer@, self.offsets@, i as int, self.rows@[i as int]));
        assert(self.offsets@[i as int] <= self.offsets@[i + 1] <= self.offsets@[self.rows@.len() as int]);
        let count = self.offsets.len();
        assert(i + 1 < count);
        decode_span(&self.table, &self.buffer, self.offsets[i], self.offsets[i + 1])
    }

    /// Every row, in order.
    pub fn to_vec(&self) -> (r: Vec<Vec<u8>>)
        requires
            self.wf(),
        ensures
            byte_rows(r@) == self@,
    {
        let n = self.len();
        let mut out: Vec<Vec<u8>> = Vec::new();
        let mut i: usize = 0;
        while i < n
            invariant
                self.wf(),
                i <= n,
                n == self@.len(),
                byte_rows(out@) == self@.take(i as int),
            decreases n - i,
        {
            let row = self.get(i);
            let ghost prev = out@;
            out.push(row);
            assert(byte_rows(out@) =~= byte_rows(prev).push(self@[i as int]));
            i = i + 1;
            assert(byte_rows(out@) =~= self@.take(i as int));
        }
        assert(self@.take(n as int) =~= self@);
        out
    }

    /// A new array of the selected rows: their codes are copied as they are,
    /// against a copy of the same table.
    pub fn filter(&self, selection: &Vec<bool>) -> (r: Self)
        requires
            self.wf(),
            selection@.len() == self@.len(),
        ensures
            r.wf(),
            r@ == select_rows(self@, selection@),
            r.symbols() == self.symbols(),
            r.memory_size() <= self.memory_size(),
    {
        let ghost t = self.symbols();
        let n = self.len();
        let mut buffer: Vec<u8> = Vec::new();
        let mut offsets: Vec<usize> = Vec::new();
        offsets.push(0);
        let ghost mut rows: Seq<Seq<u8>> = Seq::empty();
        let mut i: usize = 0;
        while i < n
            invariant
                self.wf(),
                t == self.symbols(),
                n == self@.len(),
                selection@.len() == n,
                i <= n,
                rows == select_rows(self@.take(i as int), selection@.take(i as int)),
                rows.len() == count_selected(selection@.take(i as int)),
                offsets_wf(offsets@, rows.len() as int, buffer@.len() as int),
                buffer@.len() <= self.offsets@[i as int],
                rows.len() <= i,
                forall|r: int|
                    0 <= r < rows.len() ==> #[trigger] span_decodes(t, buffer@, offsets@, r, rows[r]),
            decreases n - i,
        {
            proof {
                lemma_select_rows_step(self@, selection@, i as int);
                assert(self.offsets@[i as int] <= self.offsets@[i + 1] <= self.offsets@[n as int]);
            }
            if selection[i] {
                let start = self.offsets[i];
                let end = self.offsets[i + 1];
                let ghost prev_buf = buffer@;
                let ghost prev_offs = offsets@;
                let ghost k = rows.len() as int;
                append_bytes(&mut buffer, &self.buffer, start, end);
                offsets.push(buffer.len());
                proof {
                    assert(span_decodes(t, self.buffer@, self.offsets@, i as int, self@[i as int]));
                    assert forall|r: int| 0 <= r < k + 1 implies #[trigger] span_decodes(
                        t,
                        buffer@,
                        offsets@,
                        r,
                        rows.push(self@[i as int])[r],
                    ) by {
                        if r < k {
                            assert(span_decodes(t, prev_buf, prev_offs, r, rows[r]));
                            assert(prev_offs[r] <= prev_offs[r + 1] <= prev_offs[k]);
                            assert(buffer@.subrange(offsets@[r] as int, offsets@[r + 1] as int)
                                =~= prev_buf.subrange(prev_offs[r] as int, prev_offs[r + 1] as int));
                        } else {
                            assert(buffer@.subrange(offsets@[r] as int, offsets@[r + 1] as int)
                                =~= self.buffer@.subrange(start as int, end as int));
                        }
                    }
                    assert forall|a: int, b: int| 0 <= a <= b <= k + 1 implies #[trigger] offsets@[a]
                        <= #[trigger] offsets@[b] by {
                        if b <= k {
                            assert(prev_offs[a] <= prev_offs[b]);
                        } else if a <= k {
                            assert(prev_offs[a] <= prev_offs[k]);
                        }
                    }
                    rows = rows.push(self@[i as int]);
                }
            }
            i = i + 1;
        }
        proof {
            assert(self@.take(n as int) =~= self@);
            assert(selection@.take(n as int) =~= selection@);
        }
        let table = copy_table(&self.table);
        FsstArray { table, buffer, offsets, rows: Ghost(rows) }
    }

    /// The bytes that the array holds, or `usize::MAX` where that does not fit.
    pub fn get_array_memory_size(&self) -> (r: usize)
        requires
            self.wf(),
        ensures
            r == if self.memory_size() > usize::MAX {
                usize::MAX as nat
            } else {
                self.memory_size()
            },
    {
        let fixed = self.table.len() * 8 + FSST_OVERHEAD;
        let buffer_bytes = self.buffer.len();
        if buffer_bytes > usize::MAX - fixed {
            usize::MAX
        } else {
            let known = buffer_bytes + fixed;
            if self.offsets.len() > (usize::MAX - known) / 8 {
                usize::MAX
            } else {
                known + self.offsets.len() * 8
            }
        }
    }
}

} // verus!
