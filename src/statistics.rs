//! What the statistics display shows: durations as text and the rows of the
//! frequency table ranked by count.
use vstd::prelude::*;
use vstd::string::*;
use crate::table::{FrequencyTable, Row, row_of, rows_of};

verus! {

pub open spec fn digit_char(d: nat) -> char {
    if d == 0 {
        '0'
    } else if d == 1 {
        '1'
    } else if d == 2 {
        '2'
    } else if d == 3 {
        '3'
    } else if d == 4 {
        '4'
    } else if d == 5 {
        '5'
    } else if d == 6 {
        '6'
    } else if d == 7 {
        '7'
    } else if d == 8 {
        '8'
    } else {
        '9'
    }
}

/// The decimal digits of `n`, without leading zeros.
pub open spec fn decimal(n: nat) -> Seq<char>
    decreases n,
{
    if n < 10 {
        seq![digit_char(n)]
    } else {
        decimal(n / 10).push(digit_char(n % 10))
    }
}

/// "1h 23m 45s", "23m 45s" or "45s": hours and minutes only when non-zero
/// or above a non-zero unit.
pub open spec fn duration_text(secs: nat) -> Seq<char> {
    let h = secs / 3600;
    let m = (secs % 3600) / 60;
    let s = secs % 60;
    if h > 0 {
        decimal(h) + seq!['h', ' '] + decimal(m) + seq!['m', ' '] + decimal(s) + seq!['s']
    } else if m > 0 {
        decimal(m) + seq!['m', ' '] + decimal(s) + seq!['s']
    } else {
        decimal(s) + seq!['s']
    }
}

fn digit_str(d: u64) -> (r: &'static str)
    requires
        d < 10,
    ensures
        r@ == seq![digit_char(d as nat)],
{
    proof {
        reveal_strlit("0");
        reveal_strlit("1");
        reveal_strlit("2");
        reveal_strlit("3");
        reveal_strlit("4");
        reveal_strlit("5");
        reveal_strlit("6");
        reveal_strlit("7");
        reveal_strlit("8");
        reveal_strlit("9");
    }
    let r = if d == 0 {
        "0"
    } else if d == 1 {
        "1"
    } else if d == 2 {
        "2"
    } else if d == 3 {
        "3"
    } else if d == 4 {
        "4"
    } else if d == 5 {
        "5"
    } else if d == 6 {
        "6"
    } else if d == 7 {
        "7"
    } else if d == 8 {
        "8"
    } else {
        "9"
    };
    assert(r@ =~= seq![digit_char(d as nat)]);
    r
}

/// Appends the decimal digits of `n` to `out`.
fn push_decimal(out: &mut String, n: u64)
    ensures
        final(out)@ == old(out)@ + decimal(n as nat),
    decreases n,
{
    if n >= 10 {
        push_decimal(out, n / 10);
        out.append(digit_str(n % 10));
        assert(final(out)@ =~= old(out)@ + decimal(n as nat));
    } else {
        out.append(digit_str(n));
    }
}

/// Appends the characters of the literal `s` to `out`.
fn push_str(out: &mut String, s: &str)
    ensures
        final(out)@ == old(out)@ + s@,
{
    out.append(s);
}

/// The decimal text of `n`.
pub fn decimal_string(n: u64) -> (r: String)
    ensures
        r@ == decimal(n as nat),
{
    let mut out = String::new();
    push_decimal(&mut out, n);
    assert(out@ =~= decimal(n as nat));
    out
}

/// A duration of `total_secs` seconds as text, e.g. "1h 23m 45s".
pub fn format_duration(total_secs: u64) -> (r: String)
    ensures
        r@ == duration_text(total_secs as nat),
{
    let hours = total_secs / 3600;
    let minutes = (total_secs % 3600) / 60;
    let seconds = total_secs % 60;
    proof {
        reveal_strlit("h ");
        reveal_strlit("m ");
        reveal_strlit("s");
    }
    let mut out = String::new();
    if hours > 0 {
        push_decimal(&mut out, hours);
        push_str(&mut out, "h ");
        push_decimal(&mut out, minutes);
        push_str(&mut out, "m ");
        push_decimal(&mut out, seconds);
        push_str(&mut out, "s");
    } else if minutes > 0 {
        push_decimal(&mut out, minutes);
        push_str(&mut out, "m ");
        push_decimal(&mut out, seconds);
        push_str(&mut out, "s");
    } else {
        push_decimal(&mut out, seconds);
        push_str(&mut out, "s");
    }
    assert(out@ =~= duration_text(total_secs as nat));
    out
}

/// `e` placed after the last row of `s` whose count is not smaller.
pub open spec fn insert_by_count(s: Seq<Row>, e: Row) -> Seq<Row>
    decreases s.len(),
{
    if s.len() == 0 {
        seq![e]
    } else if s.last().1 >= e.1 {
        s.push(e)
    } else {
        insert_by_count(s.drop_last(), e).push(s.last())
    }
}

/// The rows from the highest count to the lowest; equal counts keep their order.
pub open spec fn ranked(s: Seq<Row>) -> Seq<Row>
    decreases s.len(),
{
    if s.len() == 0 {
        s
    } else {
        insert_by_count(ranked(s.drop_last()), s.last())
    }
}

spec fn count_pos(s: Seq<Row>, e: Row) -> int
    decreases s.len(),
{
    if s.len() == 0 {
        0
    } else if s.last().1 >= e.1 {
        s.len() as int
    } else {
        count_pos(s.drop_last(), e)
    }
}

proof fn lemma_count_pos(s: Seq<Row>, e: Row)
    ensures
        0 <= count_pos(s, e) <= s.len(),
        insert_by_count(s, e) == s.insert(count_pos(s, e), e),
    decreases s.len(),
{
    if s.len() == 0 {
        assert(s.insert(0, e) =~= seq![e]);
    } else if s.last().1 >= e.1 {
        assert(s.insert(s.len() as int, e) =~= s.push(e));
    } else {
        let t = s.drop_last();
        lemma_count_pos(t, e);
        assert(t.insert(count_pos(t, e), e).push(s.last()) =~= s.insert(count_pos(t, e), e));
    }
}

fn insert_ranked(ranked_rows: &mut Vec<(String, usize)>, e: (String, usize))
    ensures
        rows_of(final(ranked_rows)@) == insert_by_count(rows_of(old(ranked_rows)@), row_of(e)),
{
    let ghost s = rows_of(ranked_rows@);
    proof {
        lemma_count_pos(s, row_of(e));
    }
    let mut p: usize = ranked_rows.len();
    assert(s.take(p as int) =~= s);
    while p > 0 && ranked_rows[p - 1].1 < e.1
        invariant
            p <= ranked_rows.len(),
            s == rows_of(ranked_rows@),
            count_pos(s, row_of(e)) == count_pos(s.take(p as int), row_of(e)),
        decreases p,
    {
        proof {
            assert(s.take(p as int).drop_last() =~= s.take(p - 1));
        }
        p = p - 1;
    }
    proof {
        if p > 0 {
            assert(s.take(p as int).last() == s[p - 1]);
        }
    }
    ranked_rows.insert(p, e);
    assert(rows_of(ranked_rows@) =~= s.insert(p as int, row_of(e)));
}

/// The rows of the table from the highest count to the lowest, equal counts
/// in the table's order.
pub fn ranked_rows(text_counts: &FrequencyTable) -> (r: Vec<(String, usize)>)
    ensures
        rows_of(r@) == ranked(text_counts@),
{
    let rows = text_counts.entries();
    let ghost s = text_counts@;
    let mut out: Vec<(String, usize)> = Vec::new();
    let mut i: usize = 0;
    while i < rows.len()
        invariant
            i <= rows.len(),
            rows_of(rows@) == s,
            rows_of(out@) == ranked(s.take(i as int)),
        decreases rows.len() - i,
    {
        let e = (rows[i].0.clone(), rows[i].1);
        insert_ranked(&mut out, e);
        proof {
            assert(s.take(i + 1).drop_last() =~= s.take(i as int));
            assert(row_of(e) == s[i as int]);
        }
        i = i + 1;
    }
    assert(s.take(rows.len() as int) =~= s);
    out
}

} // verus!
