//! Customs declaration groups: the questions anyone answered yes to, and
//! the questions everyone did.

use vstd::prelude::*;

use crate::day_four::first_empty_at;
use crate::day_two::count_char;
use crate::file_util::lines_view;

verus! {

/// The answers of a group: its lines joined in order.
pub open spec fn group_concat(lv: Seq<Seq<char>>, pos: int, e: int) -> Seq<char>
    decreases e - pos,
    when pos <= e <= lv.len()
{
    if pos >= e {
        Seq::empty()
    } else {
        group_concat(lv, pos, e - 1) + lv[e - 1]
    }
}

/// The distinct characters of `s` in order of first appearance.
pub open spec fn distinct_chars(s: Seq<char>) -> Seq<char>
    decreases s.len(),
{
    if s.len() == 0 {
        Seq::empty()
    } else {
        let d = distinct_chars(s.drop_last());
        if d.contains(s.last()) {
            d
        } else {
            d.push(s.last())
        }
    }
}

/// The characters of `d` that occur exactly `cnt` times in `s`.
pub open spec fn chars_with_count(d: Seq<char>, s: Seq<char>, cnt: int) -> Seq<char>
    decreases d.len(),
{
    if d.len() == 0 {
        Seq::empty()
    } else {
        chars_with_count(d.drop_last(), s, cnt) + if count_char(s, d.last()) == cnt {
            seq![d.last()]
        } else {
            Seq::empty()
        }
    }
}

/// The distinct characters of a text are pairwise distinct.
proof fn lemma_distinct_chars_distinct(s: Seq<char>)
    ensures
        forall|i: int, j: int|
            0 <= i < j < distinct_chars(s).len() ==> distinct_chars(s)[i] != distinct_chars(s)[j],
    decreases s.len(),
{
    if s.len() > 0 {
        lemma_distinct_chars_distinct(s.drop_last());
        let d = distinct_chars(s.drop_last());
        if !d.contains(s.last()) {
            assert forall|i: int, j: int|
                0 <= i < j < distinct_chars(s).len() implies distinct_chars(s)[i]
                != distinct_chars(s)[j] by {
                if j < d.len() {
                } else {
                    assert(distinct_chars(s)[i] == d[i]);
                    assert(distinct_chars(s)[j] == s.last());
                    assert(!d.contains(s.last()));
                }
            }
        }
    }
}

/// Every count of a character is at most the length counted over.
proof fn lemma_count_char_le_len(s: Seq<char>, c: char)
    ensures
        0 <= count_char(s, c) <= s.len(),
    decreases s.len(),
{
    if s.len() > 0 {
        lemma_count_char_le_len(s.drop_last(), c);
    }
}

/// Aggregates the answer group that starts at line `start`: the questions
/// anyone answered yes to in first-appearance order, those everyone did
/// (by occurrence count over the group), and the line where reading
/// continues after the group's blank line. An empty group ends the
/// aggregation and yields nothing.
pub fn aggregate_answers(lines: &Vec<String>, start: usize) -> (r: Option<
    (Vec<char>, Vec<char>, usize),
>)
    requires
        start <= lines@.len(),
        group_concat(
            lines_view(lines@),
            start as int,
            first_empty_at(lines_view(lines@), start as int),
        ).len() <= usize::MAX,
    ensures
        ({
            let lv = lines_view(lines@);
            let e = first_empty_at(lv, start as int);
            match r {
                None => e == start,
                Some(t) => {
                    let flat = group_concat(lv, start as int, e);
                    &&& e > start
                    &&& t.0@ == distinct_chars(flat)
                    &&& t.1@ == chars_with_count(distinct_chars(flat), flat, e - start)
                    &&& t.2 == if e < lv.len() {
                        e + 1
                    } else {
                        e
                    }
                },
            }
        }),
{
    let ghost lv = lines_view(lines@);
    let n = lines.len();
    if start >= n {
        return None;
    }
    proof {
        assert(lv[start as int] == lines@[start as int]@);
    }
    if lines[start].as_str().unicode_len() == 0 {
        return None;
    }
    let mut any: Vec<char> = Vec::new();
    let mut counts: Vec<usize> = Vec::new();
    let ghost mut flat: Seq<char> = Seq::empty();
    let mut cur = start;
    loop
        invariant
            lv == lines_view(lines@),
            n == lines@.len(),
            start <= cur <= n,
            group_concat(lv, start as int, first_empty_at(lv, start as int)).len() <= usize::MAX,
            first_empty_at(lv, start as int) == first_empty_at(lv, cur as int),
            flat == group_concat(lv, start as int, cur as int),
            any@ == distinct_chars(flat),
            counts@.len() == any@.len(),
            forall|m: int|
                0 <= m < any@.len() ==> #[trigger] counts@[m] == count_char(flat, any@[m]),
        ensures
            lv == lines_view(lines@),
            start <= cur <= n,
            cur as int == first_empty_at(lv, start as int),
            flat == group_concat(lv, start as int, cur as int),
            any@ == distinct_chars(flat),
            counts@.len() == any@.len(),
            forall|m: int|
                0 <= m < any@.len() ==> #[trigger] counts@[m] == count_char(flat, any@[m]),
        decreases n - cur,
    {
        if cur >= n {
            break ;
        }
        proof {
            assert(lv[cur as int] == lines@[cur as int]@);
        }
        let line = lines[cur].as_str();
        let len = line.unicode_len();
        if len == 0 {
            break ;
        }
        for ci in 0..len
            invariant
                lv == lines_view(lines@),
                n == lines@.len(),
                start <= cur < n,
                group_concat(lv, start as int, first_empty_at(lv, start as int)).len()
                    <= usize::MAX,
                first_empty_at(lv, start as int) == first_empty_at(lv, cur as int),
                len == line@.len(),
                line@ == lv[cur as int],
                line@.len() != 0,
                flat == group_concat(lv, start as int, cur as int) + line@.take(ci as int),
                any@ == distinct_chars(flat),
                counts@.len() == any@.len(),
                forall|m: int|
                    0 <= m < any@.len() ==> #[trigger] counts@[m] == count_char(flat, any@[m]),
        {
            let c = line.get_char(ci);
            let ghost flat0 = flat;
            proof {
                assert(line@.take(ci + 1).drop_last() =~= line@.take(ci as int));
                assert(line@.take(ci + 1).last() == line@[ci as int]);
                flat = flat.push(c);
                assert(flat =~= group_concat(lv, start as int, cur as int) + line@.take(ci + 1));
                assert(flat.drop_last() =~= flat0);
                assert(flat.last() == c);
            }
            let m = any.len();
            let mut idx: usize = 0;
            loop
                invariant
                    idx <= m,
                    m == any@.len(),
                    forall|j: int| 0 <= j < idx ==> any@[j] != c,
                ensures
                    idx <= m,
                    forall|j: int| 0 <= j < idx ==> any@[j] != c,
                    idx < m ==> any@[idx as int] == c,
                    idx == m ==> !any@.contains(c),
                decreases m - idx,
            {
                if idx >= m {
                    proof {
                        assert(!any@.contains(c));
                    }
                    break ;
                }
                if any[idx] == c {
                    break ;
                }
                idx = idx + 1;
            }
            if idx < m {
                proof {
                    assert(any@.contains(c)) by {
                        assert(any@[idx as int] == c);
                    }
                    assert(distinct_chars(flat) == any@);
                    lemma_count_char_le_len(flat0, c);
                    assert(flat0.len() < usize::MAX) by {
                        let e = first_empty_at(lv, start as int);
                        crate::day_four::lemma_first_empty_at_bounds(lv, cur as int + 1);
                        assert(first_empty_at(lv, cur as int) == first_empty_at(
                            lv,
                            cur as int + 1,
                        ));
                        assert(cur as int + 1 <= e <= lv.len());
                        lemma_group_concat_split(lv, start as int, cur as int + 1, e);
                        assert(group_concat(lv, start as int, cur as int + 1) =~= group_concat(
                            lv,
                            start as int,
                            cur as int,
                        ) + lv[cur as int]);
                        assert(flat.len() <= group_concat(lv, start as int, cur as int + 1).len());
                        assert(group_concat(lv, start as int, cur as int + 1).len()
                            <= group_concat(lv, start as int, e).len());
                    }
                }
                let old_count = counts[idx];
                counts[idx] = old_count + 1;
                proof {
                    assert forall|q: int| 0 <= q < any@.len() implies #[trigger] counts@[q]
                        == count_char(flat, any@[q]) by {
                        assert(count_char(flat, any@[q]) == count_char(flat0, any@[q]) + if any@[q]
                            == c {
                            1int
                        } else {
                            0int
                        });
                        if q != idx {
                            assert(any@[q] != c) by {
                                lemma_distinct_chars_distinct(flat0);
                                assert(any@[idx as int] == c);
                            }
                        }
                    }
                }
            } else {
                let ghost any0 = any@;
                any.push(c);
                counts.push(1);
                proof {
                    assert(distinct_chars(flat) =~= any@);
                    assert forall|q: int| 0 <= q < any@.len() implies #[trigger] counts@[q]
                        == count_char(flat, any@[q]) by {
                        assert(count_char(flat, any@[q]) == count_char(flat0, any@[q]) + if any@[q]
                            == c {
                            1int
                        } else {
                            0int
                        });
                        if q < any@.len() - 1 {
                            assert(any@[q] == any0[q]);
                            assert(!any0.contains(c));
                            assert(any@[q] != c);
                        } else {
                            assert(count_char(flat0, c) == 0) by {
                                lemma_not_distinct_not_counted(flat0, c);
                            }
                        }
                    }
                }
            }
        }
        proof {
            assert(group_concat(lv, start as int, cur as int + 1) =~= group_concat(
                lv,
                start as int,
                cur as int,
            ) + lv[cur as int]);
            assert(line@.take(len as int) =~= line@);
        }
        cur = cur + 1;
    }
    proof {
        crate::day_four::lemma_first_empty_at_bounds(lv, start as int + 1);
        assert(first_empty_at(lv, start as int) == first_empty_at(lv, start as int + 1));
    }
    let count = cur - start;
    let mut all: Vec<char> = Vec::new();
    let m = any.len();
    for idx in 0..m
        invariant
            m == any@.len(),
            counts@.len() == m,
            forall|j: int| 0 <= j < m ==> #[trigger] counts@[j] == count_char(flat, any@[j]),
            all@ == chars_with_count(any@.take(idx as int), flat, count as int),
    {
        proof {
            assert(any@.take(idx + 1).drop_last() =~= any@.take(idx as int));
            assert(any@.take(idx + 1).last() == any@[idx as int]);
        }
        if counts[idx] == count {
            all.push(any[idx]);
        }
    }
    proof {
        assert(any@.take(m as int) =~= any@);
    }
    Some((any, all, if cur < n {
        cur + 1
    } else {
        cur
    }))
}

/// A character missing from the distinct list never occurs.
proof fn lemma_not_distinct_not_counted(s: Seq<char>, c: char)
    requires
        !distinct_chars(s).contains(c),
    ensures
        count_char(s, c) == 0,
    decreases s.len(),
{
    if s.len() > 0 {
        let d = distinct_chars(s.drop_last());
        assert forall|x: char| d.contains(x) implies distinct_chars(s).contains(x) by {
            if !d.contains(s.last()) {
                let j = choose|j: int| 0 <= j < d.len() && d[j] == x;
                assert(distinct_chars(s)[j] == x);
            }
        }
        lemma_not_distinct_not_counted(s.drop_last(), c);
        assert(s.last() != c) by {
            if s.last() == c {
                if d.contains(c) {
                    assert(distinct_chars(s).contains(c));
                } else {
                    assert(distinct_chars(s).last() == c);
                    assert(distinct_chars(s).contains(c));
                }
            }
        }
    }
}

/// A group's text starts with its first line.
proof fn lemma_group_concat_front(lv: Seq<Seq<char>>, cur: int, e: int)
    requires
        0 <= cur < e <= lv.len(),
    ensures
        group_concat(lv, cur, e) == lv[cur] + group_concat(lv, cur + 1, e),
    decreases e - cur,
{
    if e == cur + 1 {
        assert(group_concat(lv, cur, e) == group_concat(lv, cur, cur) + lv[cur]);
        assert(group_concat(lv, cur, cur) =~= Seq::<char>::empty());
        assert(group_concat(lv, cur + 1, e) =~= Seq::<char>::empty());
        assert(group_concat(lv, cur, e) =~= lv[cur] + group_concat(lv, cur + 1, e));
    } else {
        lemma_group_concat_front(lv, cur, e - 1);
        assert(group_concat(lv, cur, e) == group_concat(lv, cur, e - 1) + lv[e - 1]);
        assert(group_concat(lv, cur + 1, e) == group_concat(lv, cur + 1, e - 1) + lv[e - 1]);
        assert(group_concat(lv, cur, e) =~= lv[cur] + group_concat(lv, cur + 1, e));
    }
}

/// A group's text splits at any line boundary inside it.
proof fn lemma_group_concat_split(lv: Seq<Seq<char>>, start: int, cur: int, e: int)
    requires
        0 <= start <= cur <= e <= lv.len(),
    ensures
        group_concat(lv, start, e) == group_concat(lv, start, cur) + group_concat(lv, cur, e),
    decreases e - cur,
{
    if cur == e {
        assert(group_concat(lv, start, e) =~= group_concat(lv, start, cur) + group_concat(
            lv,
            cur,
            e,
        ));
    } else {
        lemma_group_concat_split(lv, start, cur, e - 1);
        assert(group_concat(lv, start, e) =~= group_concat(lv, start, cur) + group_concat(
            lv,
            cur,
            e,
        ));
    }
}

} // verus!
