//! The frequency table: encounter counts per name, kept in the order in
//! which each name was first counted.
use vstd::prelude::*;

verus! {

/// One row of a table's view: a name and its count.
pub type Row = (Seq<char>, nat);

pub open spec fn row_of(e: (String, usize)) -> Row {
    (e.0@, e.1 as nat)
}

pub open spec fn rows_of(v: Seq<(String, usize)>) -> Seq<Row> {
    v.map_values(|e: (String, usize)| row_of(e))
}

/// No name appears in two rows.
pub open spec fn keys_unique(s: Seq<Row>) -> bool {
    forall|i: int, j: int| 0 <= i < s.len() && 0 <= j < s.len() && i != j ==> s[i].0 != s[j].0
}

/// The sum of all counts.
pub open spec fn sum_counts(s: Seq<Row>) -> nat
    decreases s.len(),
{
    if s.len() == 0 {
        0
    } else {
        sum_counts(s.drop_last()) + s.last().1
    }
}

/// The row holding `k`, or -1.
pub open spec fn key_index(s: Seq<Row>, k: Seq<char>) -> int
    decreases s.len(),
{
    if s.len() == 0 {
        -1
    } else if s.last().0 == k {
        s.len() - 1
    } else {
        key_index(s.drop_last(), k)
    }
}

/// The count recorded for `k` (zero when absent).
pub open spec fn count_of(s: Seq<Row>, k: Seq<char>) -> nat {
    let i = key_index(s, k);
    if 0 <= i {
        s[i].1
    } else {
        0
    }
}

/// The table after one more encounter of `k`.
pub open spec fn record_row(s: Seq<Row>, k: Seq<char>) -> Seq<Row> {
    let i = key_index(s, k);
    if 0 <= i {
        s.update(i, (k, s[i].1 + 1))
    } else {
        s.push((k, 1))
    }
}

pub proof fn lemma_key_index(s: Seq<Row>, k: Seq<char>)
    ensures
        -1 <= key_index(s, k) < s.len(),
        key_index(s, k) >= 0 ==> s[key_index(s, k)].0 == k,
        key_index(s, k) == -1 ==> forall|j: int| 0 <= j < s.len() ==> s[j].0 != k,
    decreases s.len(),
{
    if s.len() > 0 && s.last().0 != k {
        lemma_key_index(s.drop_last(), k);
        if key_index(s, k) == -1 {
            assert forall|j: int| 0 <= j < s.len() implies s[j].0 != k by {
                if j < s.len() - 1 {
                    assert(s[j] == s.drop_last()[j]);
                }
            }
        }
    }
}

pub proof fn lemma_count_le_sum(s: Seq<Row>, j: int)
    requires
        0 <= j < s.len(),
    ensures
        s[j].1 <= sum_counts(s),
    decreases s.len(),
{
    if j < s.len() - 1 {
        lemma_count_le_sum(s.drop_last(), j);
    }
}

pub proof fn lemma_sum_update(s: Seq<Row>, j: int, r: Row)
    requires
        0 <= j < s.len(),
    ensures
        sum_counts(s.update(j, r)) + s[j].1 == sum_counts(s) + r.1,
    decreases s.len(),
{
    if j < s.len() - 1 {
        lemma_sum_update(s.drop_last(), j, r);
        assert(s.update(j, r).drop_last() =~= s.drop_last().update(j, r));
    } else {
        assert(s.update(j, r).drop_last() =~= s.drop_last());
    }
}

pub proof fn lemma_sum_push(s: Seq<Row>, r: Row)
    ensures
        sum_counts(s.push(r)) == sum_counts(s) + r.1,
{
    assert(s.push(r).drop_last() =~= s);
}

/// Encounter counts per name.
pub struct FrequencyTable {
    entries: Vec<(String, usize)>,
    total: usize,
}

impl View for FrequencyTable {
    type V = Seq<Row>;

    closed spec fn view(&self) -> Seq<Row> {
        rows_of(self.entries@)
    }
}

impl FrequencyTable {
    /// Names are distinct and the stored total is the sum of the counts.
    pub closed spec fn wf(&self) -> bool {
        &&& keys_unique(self@)
        &&& sum_counts(self@) == self.total as nat
    }

    /// An empty table.
    pub fn new() -> (r: Self)
        ensures
            r@ == Seq::<Row>::empty(),
            r.wf(),
    {
        let r = FrequencyTable { entries: Vec::new(), total: 0 };
        assert(r@ =~= Seq::<Row>::empty());
        r
    }

    /// Builds a table from rows with distinct names whose counts sum to at
    /// most `usize::MAX`.
    pub fn from_rows(rows: Vec<(String, usize)>) -> (r: Option<Self>)
        ensures
            r is Some <==> keys_unique(rows_of(rows@)) && sum_counts(rows_of(rows@)) <= usize::MAX,
            r matches Some(t) ==> t@ == rows_of(rows@) && t.wf(),
    {
        let mut total: usize = 0;
        let mut i: usize = 0;
        while i < rows.len()
            invariant
                i <= rows.len(),
                total as nat == sum_counts(rows_of(rows@).take(i as int)),
            decreases rows.len() - i,
        {
            proof {
                assert(rows_of(rows@).take(i + 1).drop_last() =~= rows_of(rows@).take(i as int));
            }
            if rows[i].1 > usize::MAX - total {
                proof {
                    lemma_prefix_sum_le(rows_of(rows@), i + 1);
                }
                return None;
            }
            total = total + rows[i].1;
            i = i + 1;
        }
        assert(rows_of(rows@).take(i as int) =~= rows_of(rows@));
        let mut a: usize = 0;
        while a < rows.len()
            invariant
                i == rows.len(),
                a <= rows.len(),
                forall|p: int, q: int|
                    0 <= p < a && 0 <= q < rows.len() && p != q ==> rows@[p].0@ != rows@[q].0@,
            decreases rows.len() - a,
        {
            let mut b: usize = 0;
            while b < rows.len()
                invariant
                    a < rows.len(),
                    b <= rows.len(),
                    forall|p: int, q: int|
                        0 <= p < a && 0 <= q < rows.len() && p != q ==> rows@[p].0@ != rows@[q].0@,
                    forall|q: int| 0 <= q < b && q != a ==> rows@[a as int].0@ != rows@[q].0@,
                decreases rows.len() - b,
            {
                if b != a && rows[a].0 == rows[b].0 {
                    assert(rows_of(rows@)[a as int].0 == rows_of(rows@)[b as int].0);
                    return None;
                }
                b = b + 1;
            }
            a = a + 1;
        }
        Some(FrequencyTable { entries: rows, total })
    }

    /// A table over rows already known to have distinct names and the given
    /// count total.
    pub(crate) fn from_parts(entries: Vec<(String, usize)>, total: usize) -> (r: Self)
        requires
            keys_unique(rows_of(entries@)),
            sum_counts(rows_of(entries@)) == total as nat,
        ensures
            r@ == rows_of(entries@),
            r.wf(),
    {
        FrequencyTable { entries, total }
    }

    /// A well-formed table has distinct names and a total that fits in `usize`.
    pub proof fn lemma_wf(&self)
        requires
            self.wf(),
        ensures
            keys_unique(self@),
            sum_counts(self@) <= usize::MAX,
    {
    }

    /// The number of distinct names.
    pub fn len(&self) -> (r: usize)
        ensures
            r == self@.len(),
    {
        self.entries.len()
    }

    /// The sum of all counts.
    pub fn total(&self) -> (r: usize)
        requires
            self.wf(),
        ensures
            r == sum_counts(self@),
    {
        self.total
    }

    /// The rows, in the order in which each name was first counted.
    pub fn entries(&self) -> (r: &Vec<(String, usize)>)
        ensures
            rows_of(r@) == self@,
    {
        &self.entries
    }

    /// The row index of `key`, if it was counted.
    fn find(&self, key: &String) -> (r: Option<usize>)
        ensures
            r matches Some(i) ==> i == key_index(self@, key@),
            r is None ==> key_index(self@, key@) == -1,
    {
        let mut i: usize = self.entries.len();
        assert(self@.take(i as int) =~= self@);
        while i > 0
            invariant
                i <= self.entries.len(),
                self@ == rows_of(self.entries@),
                key_index(self@, key@) == key_index(self@.take(i as int), key@),
            decreases i,
        {
            proof {
                assert(self@.take(i as int).drop_last() =~= self@.take(i - 1));
            }
            if self.entries[i - 1].0 == *key {
                return Some(i - 1);
            }
            i = i - 1;
        }
        None
    }

    /// The count for `name`; zero when it was never counted.
    pub fn count(&self, name: &str) -> (r: usize)
        requires
            self.wf(),
        ensures
            r == count_of(self@, name@),
    {
        let key = name.to_owned();
        proof {
            lemma_key_index(self@, name@);
        }
        match self.find(&key) {
            Some(i) => self.entries[i].1,
            None => 0,
        }
    }

    /// Counts one more encounter of `name`.
    pub fn record(&mut self, name: String)
        requires
            old(self).wf(),
            sum_counts(old(self)@) < usize::MAX,
        ensures
            final(self)@ == record_row(old(self)@, name@),
            final(self).wf(),
    {
        proof {
            lemma_key_index(self@, name@);
        }
        match self.find(&name) {
            Some(j) => {
                proof {
                    lemma_count_le_sum(self@, j as int);
                    lemma_sum_update(self@, j as int, (name@, self@[j as int].1 + 1));
                }
                let c = self.entries[j].1;
                self.entries.set(j, (name, c + 1));
                self.total = self.total + 1;
                assert(self@ =~= record_row(old(self)@, name@));
            },
            None => {
                proof {
                    lemma_sum_push(self@, (name@, 1));
                }
                self.entries.push((name, 1));
                self.total = self.total + 1;
                assert(self@ =~= record_row(old(self)@, name@));
            },
        }
    }

    /// Removes every row.
    pub fn clear(&mut self)
        ensures
            final(self)@ == Seq::<Row>::empty(),
            final(self).wf(),
    {
        self.entries = Vec::new();
        self.total = 0;
        assert(self@ =~= Seq::<Row>::empty());
    }
}

pub proof fn lemma_prefix_sum_le(s: Seq<Row>, n: int)
    requires
        0 <= n <= s.len(),
    ensures
        sum_counts(s.take(n)) <= sum_counts(s),
    decreases s.len() - n,
{
    if n < s.len() {
        lemma_prefix_sum_le(s, n + 1);
        assert(s.take(n + 1).drop_last() =~= s.take(n));
    } else {
        assert(s.take(n) =~= s);
    }
}

} // verus!
