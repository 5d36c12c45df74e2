//! Assembly of the recognized words into the text of one sample.
use vstd::prelude::*;
use vstd::string::*;
use crate::pokemon::{lemma_skip_bounds, skip_white_space};
use crate::text::{chars_of, is_white_space, is_white_space_char};

verus! {

/// `parts` joined with single spaces.
pub open spec fn join_spaced(parts: Seq<Seq<char>>) -> Seq<char>
    decreases parts.len(),
{
    if parts.len() == 0 {
        Seq::empty()
    } else if parts.len() == 1 {
        parts[0]
    } else {
        join_spaced(parts.drop_last()) + seq![' '] + parts.last()
    }
}

/// The start of the trailing run of white space that ends at `e`.
pub open spec fn trim_end(t: Seq<char>, e: int) -> int
    decreases e,
{
    if 0 < e <= t.len() && is_white_space(t[e - 1]) {
        trim_end(t, e - 1)
    } else {
        e
    }
}

/// `t` without leading and trailing white space.
pub open spec fn trimmed(t: Seq<char>) -> Seq<char> {
    let a = skip_white_space(t, 0);
    if a >= t.len() {
        Seq::empty()
    } else {
        t.subrange(a, trim_end(t, t.len() as int))
    }
}

/// The text of the recognized lines: the words of each line joined with
/// spaces, the lines joined with spaces, white space trimmed at both ends.
pub open spec fn recognized_text(lines: Seq<Seq<Seq<char>>>) -> Seq<char> {
    trimmed(join_spaced(lines.map_values(|words: Seq<Seq<char>>| join_spaced(words))))
}

pub open spec fn words_view(words: Seq<String>) -> Seq<Seq<char>> {
    words.map_values(|w: String| w@)
}

pub open spec fn lines_view(lines: Seq<Vec<String>>) -> Seq<Seq<Seq<char>>> {
    lines.map_values(|l: Vec<String>| words_view(l@))
}

/// Appends `parts` joined with single spaces to `out`.
fn push_joined(out: &mut String, parts: &Vec<String>)
    ensures
        final(out)@ == old(out)@ + join_spaced(words_view(parts@)),
{
    let ghost start = out@;
    let mut i: usize = 0;
    while i < parts.len()
        invariant
            i <= parts.len(),
            out@ == start + join_spaced(words_view(parts@).take(i as int)),
        decreases parts.len() - i,
    {
        proof {
            assert(words_view(parts@).take(i + 1).drop_last() =~= words_view(parts@).take(i as int));
        }
        let ghost before = out@;
        let sp = " ";
        proof {
            reveal_strlit(" ");
            assert(sp@ =~= seq![' ']);
        }
        if i > 0 {
            out.append(sp);
        }
        out.append(parts[i].as_str());
        proof {
            if i > 0 {
                assert(out@ =~= before + seq![' '] + parts@[i as int]@);
            }
        }
        proof {
            if i == 0 {
                assert(out@ =~= start + join_spaced(words_view(parts@).take(1)));
            } else {
                let w = words_view(parts@).take(i + 1);
                assert(w.last() == parts@[i as int]@);
                assert(w.drop_last() =~= words_view(parts@).take(i as int));
                assert(join_spaced(w) == join_spaced(w.drop_last()) + seq![' '] + w.last());
                assert(out@ =~= start + join_spaced(w));
            }
        }
        i = i + 1;
    }
    assert(words_view(parts@).take(i as int) =~= words_view(parts@));
}

/// Joins the recognized lines into one text; see [`recognized_text`].
pub fn join_recognized_text(lines: &Vec<Vec<String>>) -> (r: String)
    ensures
        r@ == recognized_text(lines_view(lines@)),
{
    let ghost lv = lines_view(lines@).map_values(|words: Seq<Seq<char>>| join_spaced(words));
    let mut out = String::new();
    let mut i: usize = 0;
    while i < lines.len()
        invariant
            i <= lines.len(),
            lv == lines_view(lines@).map_values(|words: Seq<Seq<char>>| join_spaced(words)),
            out@ == join_spaced(lv.take(i as int)),
        decreases lines.len() - i,
    {
        proof {
            assert(lv.take(i + 1).drop_last() =~= lv.take(i as int));
            assert(lv[i as int] == join_spaced(words_view(lines@[i as int]@)));
        }
        let ghost before = out@;
        let sp = " ";
        proof {
            reveal_strlit(" ");
            assert(sp@ =~= seq![' ']);
        }
        if i > 0 {
            out.append(sp);
        }
        push_joined(&mut out, &lines[i]);
        proof {
            if i > 0 {
                assert(out@ =~= before + seq![' '] + lv[i as int]);
            }
        }
        proof {
            if i == 0 {
                assert(out@ =~= join_spaced(lv.take(1)));
            } else {
                let w = lv.take(i + 1);
                assert(w.last() == lv[i as int]);
                assert(w.drop_last() =~= lv.take(i as int));
                assert(join_spaced(w) == join_spaced(w.drop_last()) + seq![' '] + w.last());
                assert(out@ =~= join_spaced(w));
            }
        }
        i = i + 1;
    }
    assert(lv.take(i as int) =~= lv);
    trim_text(&out)
}

proof fn lemma_trim_end_bounds(t: Seq<char>, e: int)
    requires
        0 <= e <= t.len(),
    ensures
        0 <= trim_end(t, e) <= e,
    decreases e,
{
    if 0 < e && is_white_space(t[e - 1]) {
        lemma_trim_end_bounds(t, e - 1);
    }
}

proof fn lemma_trim_end_above(t: Seq<char>, e: int, a: int)
    requires
        0 <= a < e <= t.len(),
        !is_white_space(t[a]),
    ensures
        a < trim_end(t, e),
    decreases e,
{
    if is_white_space(t[e - 1]) {
        lemma_trim_end_above(t, e - 1, a);
    }
}

/// `s` without leading and trailing white space.
fn trim_text(s: &String) -> (r: String)
    ensures
        r@ == trimmed(s@),
{
    let t = chars_of(s.as_str());
    let mut a: usize = 0;
    proof {
        lemma_skip_bounds(t@, 0);
    }
    while a < t.len() && is_white_space_char(t[a])
        invariant
            a <= t.len(),
            skip_white_space(t@, 0) == skip_white_space(t@, a as int),
        decreases t.len() - a,
    {
        a = a + 1;
    }
    if a >= t.len() {
        return String::new();
    }
    let mut e: usize = t.len();
    proof {
        lemma_trim_end_bounds(t@, e as int);
        lemma_trim_end_above(t@, e as int, a as int);
    }
    while e > a && is_white_space_char(t[e - 1])
        invariant
            a < t.len(),
            a <= e <= t.len(),
            trim_end(t@, t@.len() as int) == trim_end(t@, e as int),
            a < trim_end(t@, e as int),
        decreases e,
    {
        e = e - 1;
    }
    proof {
        lemma_trim_end_bounds(t@, e as int);
    }
    s.as_str().substring_char(a, e).to_owned()
}

} // verus!
