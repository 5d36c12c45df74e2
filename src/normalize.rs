//! Merging of names that differ from a shorter counted name only by extra
//! recognized characters ("Pidgey!" into "Pidgey").
use vstd::prelude::*;
use crate::table::{
    FrequencyTable, Row, keys_unique, lemma_count_le_sum, lemma_prefix_sum_le, lemma_sum_push,
    lemma_sum_update,
    row_of, rows_of, sum_counts,
};
use crate::text::{chars_of, contains, contains_chars};

verus! {

/// `e` placed after the last row of `s` whose name is not longer than its own.
pub open spec fn insert_by_len(s: Seq<Row>, e: Row) -> Seq<Row>
    decreases s.len(),
{
    if s.len() == 0 {
        seq![e]
    } else if s.last().0.len() <= e.0.len() {
        s.push(e)
    } else {
        insert_by_len(s.drop_last(), e).push(s.last())
    }
}

/// The rows ordered by name length; rows of equal length keep their order.
pub open spec fn sort_by_len(s: Seq<Row>) -> Seq<Row>
    decreases s.len(),
{
    if s.len() == 0 {
        s
    } else {
        insert_by_len(sort_by_len(s.drop_last()), s.last())
    }
}

/// `name` strictly extends `key`: it contains it and differs from it.
pub open spec fn absorbs(name: Seq<char>, key: Seq<char>) -> bool {
    contains(name, key) && name != key
}

/// The first row at or after `j` whose name `name` absorbs, or -1.
pub open spec fn absorber_from(out: Seq<Row>, name: Seq<char>, j: int) -> int
    decreases out.len() - j,
{
    if j < 0 || j >= out.len() {
        -1
    } else if absorbs(name, out[j].0) {
        j
    } else {
        absorber_from(out, name, j + 1)
    }
}

/// `e` merged into the rows built so far: its count goes to the first row
/// whose name it absorbs, or it becomes a row of its own.
pub open spec fn merge_row(out: Seq<Row>, e: Row) -> Seq<Row> {
    let j = absorber_from(out, e.0, 0);
    if j >= 0 {
        out.update(j, (out[j].0, out[j].1 + e.1))
    } else {
        out.push(e)
    }
}

/// The rows of `s` merged one after another, first to last.
pub open spec fn merge_rows(s: Seq<Row>) -> Seq<Row>
    decreases s.len(),
{
    if s.len() == 0 {
        Seq::empty()
    } else {
        merge_row(merge_rows(s.drop_last()), s.last())
    }
}

/// The normalized table: rows taken shortest name first, each merged into
/// the first earlier kept name that it strictly contains.
pub open spec fn normalized(s: Seq<Row>) -> Seq<Row> {
    merge_rows(sort_by_len(s))
}

pub open spec fn sorted_by_len(s: Seq<Row>) -> bool {
    forall|i: int, j: int| 0 <= i < j < s.len() ==> s[i].0.len() <= s[j].0.len()
}

/// No row's name absorbs the name of an earlier row.
pub open spec fn no_absorption(s: Seq<Row>) -> bool {
    forall|i: int, j: int| 0 <= i < j < s.len() ==> !absorbs(s[j].0, s[i].0)
}

pub open spec fn has_key(s: Seq<Row>, k: Seq<char>) -> bool {
    exists|i: int| 0 <= i < s.len() && s[i].0 == k
}

proof fn lemma_absorber_from(out: Seq<Row>, name: Seq<char>, j: int)
    requires
        0 <= j,
    ensures
        absorber_from(out, name, j) == -1 || (j <= absorber_from(out, name, j) < out.len()
            && absorbs(name, out[absorber_from(out, name, j)].0)),
        absorber_from(out, name, j) == -1 ==> forall|k: int|
            j <= k < out.len() ==> !absorbs(name, #[trigger] out[k].0),
        absorber_from(out, name, j) >= 0 ==> forall|k: int|
            j <= k < absorber_from(out, name, j) ==> !absorbs(name, #[trigger] out[k].0),
    decreases out.len() - j,
{
    if j < out.len() && !absorbs(name, out[j].0) {
        lemma_absorber_from(out, name, j + 1);
    }
}

proof fn lemma_insert_sum(s: Seq<Row>, e: Row)
    ensures
        sum_counts(insert_by_len(s, e)) == sum_counts(s) + e.1,
        insert_by_len(s, e).len() == s.len() + 1,
        forall|k: Seq<char>| #[trigger] has_key(insert_by_len(s, e), k) <==> (has_key(s, k) || k == e.0),
    decreases s.len(),
{
    let r = insert_by_len(s, e);
    if s.len() == 0 {
        lemma_sum_push(s, e);
        assert(r =~= s.push(e));
        assert(r[0] == e);
        assert forall|k: Seq<char>| has_key(r, k) <==> (has_key(s, k) || k == e.0) by {
            if has_key(r, k) {
                let i = choose|i: int| 0 <= i < r.len() && r[i].0 == k;
                assert(i == 0);
            }
        }
    } else if s.last().0.len() <= e.0.len() {
        lemma_sum_push(s, e);
        assert forall|k: Seq<char>| has_key(r, k) <==> (has_key(s, k) || k == e.0) by {
            if has_key(r, k) {
                let i = choose|i: int| 0 <= i < r.len() && r[i].0 == k;
                if i < s.len() {
                    assert(r[i] == s[i]);
                }
            }
            if has_key(s, k) {
                let i = choose|i: int| 0 <= i < s.len() && s[i].0 == k;
                assert(r[i] == s[i]);
            }
            if k == e.0 {
                assert(r[s.len() as int] == e);
            }
        }
    } else {
        let t = s.drop_last();
        let q = insert_by_len(t, e);
        lemma_insert_sum(t, e);
        lemma_sum_push(q, s.last());
        lemma_sum_push(t, s.last());
        assert(t.push(s.last()) =~= s);
        assert(r == q.push(s.last()));
        assert forall|k: Seq<char>| has_key(r, k) <==> (has_key(s, k) || k == e.0) by {
            if has_key(r, k) {
                let i = choose|i: int| 0 <= i < r.len() && r[i].0 == k;
                if i < q.len() {
                    assert(r[i] == q[i]);
                    assert(has_key(insert_by_len(t, e), k));
                    if has_key(t, k) {
                        let i2 = choose|i2: int| 0 <= i2 < t.len() && t[i2].0 == k;
                        assert(s[i2] == t[i2]);
                    }
                } else {
                    assert(s[s.len() - 1] == s.last());
                }
            }
            if has_key(s, k) {
                let i = choose|i: int| 0 <= i < s.len() && s[i].0 == k;
                if i < t.len() {
                    assert(t[i] == s[i]);
                    assert(has_key(t, k));
                    assert(has_key(insert_by_len(t, e), k));
                    let i2 = choose|i2: int| 0 <= i2 < q.len() && q[i2].0 == k;
                    assert(r[i2] == q[i2]);
                } else {
                    assert(r[q.len() as int] == s.last());
                }
            }
            if k == e.0 {
                assert(has_key(insert_by_len(t, e), k));
                let i2 = choose|i2: int| 0 <= i2 < q.len() && q[i2].0 == k;
                assert(r[i2] == q[i2]);
            }
        }
    }
}

/// Where [`insert_by_len`] places its row.
pub open spec fn insert_pos(s: Seq<Row>, e: Row) -> int
    decreases s.len(),
{
    if s.len() == 0 {
        0
    } else if s.last().0.len() <= e.0.len() {
        s.len() as int
    } else {
        insert_pos(s.drop_last(), e)
    }
}

proof fn lemma_insert_pos(s: Seq<Row>, e: Row)
    ensures
        0 <= insert_pos(s, e) <= s.len(),
        insert_by_len(s, e) == s.insert(insert_pos(s, e), e),
        forall|i: int| insert_pos(s, e) <= i < s.len() ==> #[trigger] s[i].0.len() > e.0.len(),
        insert_pos(s, e) > 0 ==> s[insert_pos(s, e) - 1].0.len() <= e.0.len(),
    decreases s.len(),
{
    if s.len() == 0 {
        assert(s.insert(0, e) =~= seq![e]);
    } else if s.last().0.len() <= e.0.len() {
        assert(s.insert(s.len() as int, e) =~= s.push(e));
    } else {
        let t = s.drop_last();
        lemma_insert_pos(t, e);
        let p = insert_pos(t, e);
        assert(t.insert(p, e).push(s.last()) =~= s.insert(p, e));
        assert forall|i: int| p <= i < s.len() implies #[trigger] s[i].0.len() > e.0.len() by {
            if i < t.len() {
                assert(s[i] == t[i]);
            }
        }
        if p > 0 {
            assert(s[p - 1] == t[p - 1]);
        }
    }
}

proof fn lemma_insert_keeps(s: Seq<Row>, e: Row)
    ensures
        keys_unique(s) && !has_key(s, e.0) ==> keys_unique(insert_by_len(s, e)),
        sorted_by_len(s) ==> sorted_by_len(insert_by_len(s, e)),
{
    lemma_insert_pos(s, e);
    let p = insert_pos(s, e);
    let r = insert_by_len(s, e);
    assert forall|i: int| 0 <= i < r.len() implies #[trigger] r[i] == (if i < p {
        s[i]
    } else if i == p {
        e
    } else {
        s[i - 1]
    }) by {}
    if keys_unique(s) && !has_key(s, e.0) {
        assert forall|i: int, j: int|
            0 <= i < r.len() && 0 <= j < r.len() && i != j implies r[i].0 != r[j].0 by {
            if i == p {
                assert(!(s[if j < p { j } else { j - 1 }].0 == e.0));
            } else if j == p {
                assert(!(s[if i < p { i } else { i - 1 }].0 == e.0));
            }
        }
    }
    if sorted_by_len(s) {
        assert forall|i: int, j: int| 0 <= i < j < r.len() implies r[i].0.len() <= r[j].0.len() by {
            if j == p && i < p {
                assert(s[i].0.len() <= s[p - 1].0.len());
            } else if i == p && j > p {
                assert(s[j - 1].0.len() > e.0.len());
            }
        }
    }
}

proof fn lemma_sort(s: Seq<Row>)
    ensures
        sum_counts(sort_by_len(s)) == sum_counts(s),
        sort_by_len(s).len() == s.len(),
        forall|k: Seq<char>| #[trigger] has_key(sort_by_len(s), k) <==> has_key(s, k),
        keys_unique(s) ==> keys_unique(sort_by_len(s)),
        sorted_by_len(sort_by_len(s)),
    decreases s.len(),
{
    if s.len() > 0 {
        let t = s.drop_last();
        let e = s.last();
        lemma_sort(t);
        lemma_insert_sum(sort_by_len(t), e);
        lemma_insert_keeps(sort_by_len(t), e);
        lemma_sum_push(t, e);
        assert(t.push(e) =~= s);
        assert forall|k: Seq<char>| has_key(s, k) <==> (has_key(t, k) || k == e.0) by {
            if has_key(s, k) {
                let i = choose|i: int| 0 <= i < s.len() && s[i].0 == k;
                if i < t.len() {
                    assert(t[i] == s[i]);
                }
            }
            if has_key(t, k) {
                let i = choose|i: int| 0 <= i < t.len() && t[i].0 == k;
                assert(t[i] == s[i]);
            }
            if k == e.0 {
                assert(s[s.len() - 1] == e);
            }
        }
        if keys_unique(s) {
            assert forall|i: int, j: int|
                0 <= i < t.len() && 0 <= j < t.len() && i != j implies t[i].0 != t[j].0 by {
                assert(t[i] == s[i] && t[j] == s[j]);
            }
            if has_key(t, e.0) {
                let i = choose|i: int| 0 <= i < t.len() && t[i].0 == e.0;
                assert(t[i] == s[i]);
                assert(s[s.len() - 1] == e);
            }
            assert(!has_key(sort_by_len(t), e.0));
        }
    }
}

proof fn lemma_merge_rows(s: Seq<Row>)
    ensures
        sum_counts(merge_rows(s)) == sum_counts(s),
        forall|j: int| 0 <= j < merge_rows(s).len() ==> has_key(s, #[trigger] merge_rows(s)[j].0),
        keys_unique(s) ==> keys_unique(merge_rows(s)),
        no_absorption(merge_rows(s)),
        sorted_by_len(s) ==> sorted_by_len(merge_rows(s)),
    decreases s.len(),
{
    if s.len() > 0 {
        let t = s.drop_last();
        let e = s.last();
        let m = merge_rows(t);
        lemma_merge_rows(t);
        lemma_sum_push(t, e);
        assert(t.push(e) =~= s);
        assert(s[s.len() - 1] == e);
        assert forall|k: Seq<char>| has_key(t, k) implies has_key(s, k) by {
            let i = choose|i: int| 0 <= i < t.len() && t[i].0 == k;
            assert(t[i] == s[i]);
        }
        lemma_absorber_from(m, e.0, 0);
        let j = absorber_from(m, e.0, 0);
        let r = merge_rows(s);
        if j >= 0 {
            lemma_sum_update(m, j, (m[j].0, m[j].1 + e.1));
            assert forall|i: int| 0 <= i < r.len() implies #[trigger] r[i].0 == m[i].0 by {}
            assert forall|jj: int| 0 <= jj < r.len() implies has_key(s, #[trigger] r[jj].0) by {
                assert(r[jj].0 == m[jj].0);
                assert(has_key(t, m[jj].0));
            }
        } else {
            lemma_sum_push(m, e);
            assert(r == m.push(e));
            assert forall|jj: int| 0 <= jj < r.len() implies has_key(s, #[trigger] r[jj].0) by {
                if jj < m.len() {
                    assert(r[jj] == m[jj]);
                    assert(has_key(t, m[jj].0));
                }
            }
            if keys_unique(s) {
                assert forall|i: int, k: int|
                    0 <= i < t.len() && 0 <= k < t.len() && i != k implies t[i].0 != t[k].0 by {
                    assert(t[i] == s[i] && t[k] == s[k]);
                }
                assert forall|i: int, k: int|
                    0 <= i < r.len() && 0 <= k < r.len() && i != k implies r[i].0 != r[k].0 by {
                    if i == m.len() || k == m.len() {
                        let o = if i == m.len() { k } else { i };
                        assert(has_key(t, m[o].0));
                        let w = choose|w: int| 0 <= w < t.len() && t[w].0 == m[o].0;
                        assert(t[w] == s[w]);
                    }
                }
            }
            assert forall|a: int, b: int| 0 <= a < b < r.len() implies !absorbs(r[b].0, r[a].0) by {
                if b < m.len() {
                    assert(r[a] == m[a] && r[b] == m[b]);
                } else {
                    assert(r[a] == m[a]);
                    assert(!absorbs(e.0, m[a].0));
                }
            }
            if sorted_by_len(s) {
                assert forall|a: int, b: int| 0 <= a < b < r.len() implies r[a].0.len()
                    <= r[b].0.len() by {
                    if b == m.len() {
                        assert(has_key(t, m[a].0));
                        let w = choose|w: int| 0 <= w < t.len() && t[w].0 == m[a].0;
                        assert(t[w] == s[w]);
                    }
                }
            }
        }
    }
}

proof fn lemma_sort_sorted(s: Seq<Row>)
    requires
        sorted_by_len(s),
    ensures
        sort_by_len(s) == s,
    decreases s.len(),
{
    if s.len() > 0 {
        let t = s.drop_last();
        assert(sorted_by_len(t));
        lemma_sort_sorted(t);
        assert(t.push(s.last()) =~= s);
        if t.len() > 0 {
            assert(t.last() == s[s.len() - 2]);
        } else {
            assert(seq![s.last()] =~= s);
        }
    }
}

proof fn lemma_merge_unabsorbed(s: Seq<Row>)
    requires
        no_absorption(s),
    ensures
        merge_rows(s) == s,
    decreases s.len(),
{
    if s.len() > 0 {
        let t = s.drop_last();
        assert(no_absorption(t));
        lemma_merge_unabsorbed(t);
        lemma_absorber_from(t, s.last().0, 0);
        if absorber_from(t, s.last().0, 0) >= 0 {
            let j = absorber_from(t, s.last().0, 0);
            assert(s[j] == t[j]);
            assert(!absorbs(s[s.len() - 1].0, s[j].0));
        }
        assert(t.push(s.last()) =~= s);
    }
}

/// Normalizing is idempotent: a normalized table normalizes to itself.
pub proof fn lemma_normalize_idempotent(s: Seq<Row>)
    ensures
        normalized(normalized(s)) == normalized(s),
{
    let n = normalized(s);
    lemma_sort(s);
    lemma_merge_rows(sort_by_len(s));
    lemma_sort_sorted(n);
    lemma_merge_unabsorbed(n);
}

/// The names of a normalized table are distinct when those of the table
/// are, and its counts add up to the same total.
pub proof fn lemma_normalize_keeps(s: Seq<Row>)
    ensures
        sum_counts(normalized(s)) == sum_counts(s),
        keys_unique(s) ==> keys_unique(normalized(s)),
        sorted_by_len(normalized(s)),
        no_absorption(normalized(s)),
{
    lemma_sort(s);
    lemma_merge_rows(sort_by_len(s));
}

fn name_len(s: &String) -> (r: usize)
    ensures
        r == s@.len(),
{
    s.as_str().unicode_len()
}

/// `sorted` with `e` inserted after the last row whose name is not longer.
fn insert_sorted(sorted: &mut Vec<(String, usize)>, e: (String, usize))
    ensures
        rows_of(final(sorted)@) == insert_by_len(rows_of(old(sorted)@), row_of(e)),
{
    let ghost s = rows_of(sorted@);
    proof {
        lemma_insert_pos(s, row_of(e));
    }
    let elen = name_len(&e.0);
    let mut p: usize = sorted.len();
    assert(s.take(p as int) =~= s);
    while p > 0 && name_len(&sorted[p - 1].0) > elen
        invariant
            p <= sorted.len(),
            s == rows_of(sorted@),
            elen == e.0@.len(),
            insert_pos(s, row_of(e)) == insert_pos(s.take(p as int), row_of(e)),
        decreases p,
    {
        proof {
            assert(s.take(p as int).drop_last() =~= s.take(p - 1));
        }
        p = p - 1;
    }
    proof {
        if p > 0 {
            assert(s.take(p as int).last() == s[p - 1]);
        }
        assert(p == insert_pos(s, row_of(e)));
    }
    sorted.insert(p, e);
    assert(rows_of(sorted@) =~= s.insert(p as int, row_of(e)));
}

/// Merges each name into the shortest earlier-counted name that it strictly
/// contains (so "Pidgey!" joins "Pidgey"), visiting names from shortest to
/// longest, equal lengths in the table's order. Each name joins at most one
/// other; a name that stays becomes a row of its own.
pub fn normalize_pokemon_names(text_counts: &FrequencyTable) -> (r: FrequencyTable)
    requires
        text_counts.wf(),
    ensures
        r@ == normalized(text_counts@),
        r.wf(),
{
    let rows = text_counts.entries();
    let total = text_counts.total();
    let ghost s = text_counts@;
    proof {
        text_counts.lemma_wf();
    }
    let mut sorted: Vec<(String, usize)> = Vec::new();
    let mut i: usize = 0;
    while i < rows.len()
        invariant
            i <= rows.len(),
            rows_of(rows@) == s,
            rows_of(sorted@) == sort_by_len(s.take(i as int)),
        decreases rows.len() - i,
    {
        let e = (rows[i].0.clone(), rows[i].1);
        insert_sorted(&mut sorted, e);
        proof {
            assert(s.take(i + 1).drop_last() =~= s.take(i as int));
            assert(row_of(e) == s[i as int]);
        }
        i = i + 1;
    }
    assert(s.take(rows.len() as int) =~= s);
    let ghost ss = sort_by_len(s);
    proof {
        lemma_sort(s);
    }
    let mut out: Vec<(String, usize)> = Vec::new();
    let mut k: usize = 0;
    while k < sorted.len()
        invariant
            k <= sorted.len(),
            rows_of(sorted@) == ss,
            sum_counts(ss) == total as nat,
            rows_of(out@) == merge_rows(ss.take(k as int)),
        decreases sorted.len() - k,
    {
        let ghost m = rows_of(out@);
        let ghost e = ss[k as int];
        proof {
            assert(ss.take(k + 1).drop_last() =~= ss.take(k as int));
            assert(ss.take(k + 1).last() == e);
            lemma_merge_rows(ss.take(k + 1));
            lemma_merge_rows(ss.take(k as int));
            lemma_prefix_sum_le(ss, k + 1);
            lemma_sum_push(ss.take(k as int), e);
        }
        let name = sorted[k].0.clone();
        let cnt = sorted[k].1;
        let name_chars = chars_of(name.as_str());
        let mut j: usize = 0;
        let mut merged = false;
        while !merged && j < out.len()
            invariant
                j <= out.len(),
                name@ == e.0,
                cnt as nat == e.1,
                name_chars@ == e.0,
                sum_counts(m) + e.1 <= total,
                merged ==> rows_of(out@) == merge_row(m, e),
                !merged ==> rows_of(out@) == m && absorber_from(m, e.0, 0) == absorber_from(
                    m,
                    e.0,
                    j as int,
                ),
            decreases out.len() - j + (if merged { 0int } else { 1int }),
        {
            let key_chars = chars_of(out[j].0.as_str());
            if contains_chars(&name_chars, &key_chars) && !(name == out[j].0) {
                proof {
                    assert(m[j as int].0 == out@[j as int].0@);
                    assert(absorbs(e.0, m[j as int].0));
                    lemma_count_le_sum(m, j as int);
                }
                let key = out[j].0.clone();
                let c = out[j].1;
                out.set(j, (key, c + cnt));
                assert(rows_of(out@) =~= merge_row(m, e));
                merged = true;
            } else {
                j = j + 1;
            }
        }
        if !merged {
            out.push((name, cnt));
            assert(rows_of(out@) =~= merge_row(m, e));
        }
        k = k + 1;
    }
    assert(ss.take(sorted.len() as int) =~= ss);
    proof {
        lemma_normalize_keeps(s);
    }
    FrequencyTable::from_parts(out, total)
}

proof fn lemma_merge_covers(s: Seq<Row>)
    ensures
        forall|i: int|
            0 <= i < s.len() ==> has_key(merge_rows(s), #[trigger] s[i].0) || exists|j: int|
                0 <= j < merge_rows(s).len() && absorbs(s[i].0, merge_rows(s)[j].0),
    decreases s.len(),
{
    if s.len() > 0 {
        let t = s.drop_last();
        let e = s.last();
        let m = merge_rows(t);
        lemma_merge_covers(t);
        lemma_absorber_from(m, e.0, 0);
        let r = merge_rows(s);
        let j0 = absorber_from(m, e.0, 0);
        assert(r.len() >= m.len());
        assert forall|j: int| 0 <= j < m.len() implies #[trigger] r[j].0 == m[j].0 by {}
        assert forall|i: int| 0 <= i < s.len() implies has_key(r, #[trigger] s[i].0) || exists|j: int|
            0 <= j < r.len() && absorbs(s[i].0, r[j].0) by {
            if i < t.len() {
                assert(s[i] == t[i]);
                if has_key(m, t[i].0) {
                    let w = choose|w: int| 0 <= w < m.len() && m[w].0 == t[i].0;
                    assert(r[w].0 == m[w].0);
                } else {
                    let w = choose|w: int| 0 <= w < m.len() && absorbs(t[i].0, m[w].0);
                    assert(r[w].0 == m[w].0);
                }
            } else {
                assert(s[i] == e);
                if j0 >= 0 {
                    assert(r[j0].0 == m[j0].0);
                } else {
                    assert(r[m.len() as int] == e);
                }
            }
        }
    }
}

proof fn lemma_absorbs_shorter(k: Seq<char>, c: Seq<char>)
    requires
        absorbs(k, c),
    ensures
        c.len() < k.len(),
{
    let i = choose|i: int| 0 <= i && i + c.len() <= k.len() && #[trigger] k.subrange(i, i + c.len()) == c;
    if c.len() == k.len() {
        assert(k.subrange(0, k.len() as int) =~= k);
    }
}

/// Normalizing only moves counts into shorter kept names: every name of the
/// result is a name of the table, and every name of the table missing from
/// the result strictly contains, and is longer than, a name of the result.
pub proof fn lemma_normalize_moves_to_shorter(s: Seq<Row>)
    ensures
        forall|j: int| 0 <= j < normalized(s).len() ==> has_key(s, #[trigger] normalized(s)[j].0),
        forall|i: int|
            0 <= i < s.len() && !has_key(normalized(s), #[trigger] s[i].0) ==> exists|j: int|
                0 <= j < normalized(s).len() && absorbs(s[i].0, normalized(s)[j].0)
                    && normalized(s)[j].0.len() < s[i].0.len(),
{
    let ss = sort_by_len(s);
    let n = normalized(s);
    lemma_sort(s);
    lemma_merge_rows(ss);
    lemma_merge_covers(ss);
    assert forall|j: int| 0 <= j < n.len() implies has_key(s, #[trigger] n[j].0) by {
        assert(has_key(ss, n[j].0));
    }
    assert forall|i: int| 0 <= i < s.len() && !has_key(n, #[trigger] s[i].0) implies exists|j: int|
        0 <= j < n.len() && absorbs(s[i].0, n[j].0) && n[j].0.len() < s[i].0.len() by {
        assert(has_key(s, s[i].0));
        assert(has_key(ss, s[i].0));
        let w = choose|w: int| 0 <= w < ss.len() && ss[w].0 == s[i].0;
        assert(has_key(n, ss[w].0) || exists|j: int| 0 <= j < n.len() && absorbs(ss[w].0, n[j].0));
        let j = choose|j: int| 0 <= j < n.len() && absorbs(ss[w].0, n[j].0);
        lemma_absorbs_shorter(s[i].0, n[j].0);
    }
}

} // verus!
