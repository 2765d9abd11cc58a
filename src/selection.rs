use vstd::prelude::*;

verus! {

/// The number of rows that a selection keeps.
pub open spec fn count_selected(m: Seq<bool>) -> nat
    decreases m.len(),
{
    if m.len() == 0 {
        0
    } else {
        count_selected(m.drop_last()) + if m.last() {
            1nat
        } else {
            0nat
        }
    }
}

/// The rows of `s` whose entry in `m` is true, in their original order.
pub open spec fn select_rows<A>(s: Seq<A>, m: Seq<bool>) -> Seq<A>
    decreases s.len(),
{
    if s.len() == 0 || m.len() == 0 {
        Seq::empty()
    } else {
        let rest = select_rows(s.drop_last(), m.drop_last());
        if m.last() {
            rest.push(s.last())
        } else {
            rest
        }
    }
}

/// The selection over the original rows that keeps what selecting with `m1`
/// and then with `m2` keeps: `m2` has one entry per row that `m1` keeps.
pub open spec fn compose_selections(m1: Seq<bool>, m2: Seq<bool>) -> Seq<bool>
    decreases m1.len(),
{
    if m1.len() == 0 {
        Seq::empty()
    } else if m1.last() {
        compose_selections(m1.drop_last(), m2.drop_last()).push(
            if m2.len() == 0 {
                false
            } else {
                m2.last()
            },
        )
    } else {
        compose_selections(m1.drop_last(), m2).push(false)
    }
}

/// A step of a loop that selects rows one at a time.
pub proof fn lemma_select_rows_step<A>(s: Seq<A>, m: Seq<bool>, i: int)
    requires
        0 <= i < s.len(),
        s.len() == m.len(),
    ensures
        select_rows(s.take(i + 1), m.take(i + 1)) == if m[i] {
            select_rows(s.take(i), m.take(i)).push(s[i])
        } else {
            select_rows(s.take(i), m.take(i))
        },
        count_selected(m.take(i + 1)) == count_selected(m.take(i)) + if m[i] {
            1nat
        } else {
            0nat
        },
{
    assert(s.take(i + 1).drop_last() =~= s.take(i));
    assert(m.take(i + 1).drop_last() =~= m.take(i));
}

/// Selecting keeps exactly as many rows as the selection marks.
pub proof fn lemma_select_rows_len<A>(s: Seq<A>, m: Seq<bool>)
    requires
        s.len() == m.len(),
    ensures
        select_rows(s, m).len() == count_selected(m),
    decreases s.len(),
{
    if s.len() > 0 {
        lemma_select_rows_len(s.drop_last(), m.drop_last());
    }
}

/// A selection keeps no more rows than it has entries.
pub proof fn lemma_count_selected_bound(m: Seq<bool>)
    ensures
        count_selected(m) <= m.len(),
    decreases m.len(),
{
    if m.len() > 0 {
        lemma_count_selected_bound(m.drop_last());
    }
}

/// Selecting commutes with any per-row map, such as decoding each row.
pub proof fn lemma_select_rows_map<A, B>(s: Seq<A>, m: Seq<bool>, f: spec_fn(A) -> B)
    requires
        s.len() == m.len(),
    ensures
        select_rows(s.map_values(f), m) == select_rows(s, m).map_values(f),
    decreases s.len(),
{
    if s.len() > 0 {
        assert(s.map_values(f).drop_last() =~= s.drop_last().map_values(f));
        lemma_select_rows_map(s.drop_last(), m.drop_last(), f);
        assert(select_rows(s.drop_last(), m.drop_last()).push(s.last()).map_values(f)
            =~= select_rows(s.drop_last(), m.drop_last()).map_values(f).push(f(s.last())));
    }
}

/// Selecting with `m1` and then with `m2`, one entry per surviving row,
/// keeps the same rows as selecting once with the composed selection.
pub proof fn lemma_select_rows_compose<A>(s: Seq<A>, m1: Seq<bool>, m2: Seq<bool>)
    requires
        s.len() == m1.len(),
        m2.len() == count_selected(m1),
    ensures
        compose_selections(m1, m2).len() == m1.len(),
        select_rows(select_rows(s, m1), m2) == select_rows(s, compose_selections(m1, m2)),
    decreases s.len(),
{
    if s.len() > 0 {
        let s0 = s.drop_last();
        let a = m1.drop_last();
        lemma_select_rows_len(s0, a);
        if m1.last() {
            lemma_select_rows_compose(s0, a, m2.drop_last());
            let inner = select_rows(s0, a).push(s.last());
            assert(inner.drop_last() =~= select_rows(s0, a));
            let c = compose_selections(a, m2.drop_last());
            assert(c.push(m2.last()).drop_last() =~= c);
        } else {
            lemma_select_rows_compose(s0, a, m2);
            let c = compose_selections(a, m2);
            assert(c.push(false).drop_last() =~= c);
        }
    }
}

/// Rows made of values and a validity flag per row: one marks a present value.
pub open spec fn with_validity<A>(codes: Seq<A>, valid: Seq<u64>) -> Seq<Option<A>> {
    Seq::new(codes.len(), |i: int| if valid[i] == 1 { Some(codes[i]) } else { None })
}

/// Selecting rows commutes with pairing values and validity flags.
pub proof fn lemma_with_validity_select<A>(codes: Seq<A>, valid: Seq<u64>, m: Seq<bool>)
    requires
        codes.len() == valid.len(),
        codes.len() == m.len(),
    ensures
        select_rows(with_validity(codes, valid), m) == with_validity(
            select_rows(codes, m),
            select_rows(valid, m),
        ),
    decreases codes.len(),
{
    if codes.len() > 0 {
        lemma_with_validity_select(codes.drop_last(), valid.drop_last(), m.drop_last());
        assert(with_validity(codes, valid).drop_last() =~= with_validity(
            codes.drop_last(),
            valid.drop_last(),
        ));
        lemma_select_rows_len(codes.drop_last(), m.drop_last());
        lemma_select_rows_len(valid.drop_last(), m.drop_last());
        let c = select_rows(codes.drop_last(), m.drop_last());
        let v = select_rows(valid.drop_last(), m.drop_last());
        assert(with_validity(c, v).push(with_validity(codes, valid).last()) =~= with_validity(
            c.push(codes.last()),
            v.push(valid.last()),
        ));
    }
}

} // verus!
