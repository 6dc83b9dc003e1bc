//! Credential records: parsing blank-line-separated batches of `key:value`
//! fields and validating them.

use vstd::prelude::*;

use crate::file_util::all_digits;
use crate::file_util::char_at_or_len;
use crate::file_util::decimal_value;
use crate::file_util::eq_str;
use crate::file_util::find_char_from;
use crate::file_util::lemma_char_at_or_len_bounds;
use crate::file_util::lines_view;

verus! {

/// One credential field, named by its three-letter key.
#[derive(PartialEq, Eq, Debug, Clone)]
pub enum Credential {
    BYR(String),
    IYR(String),
    EYR(String),
    HGT(String),
    HCL(String),
    ECL(String),
    PID(String),
}

/// The known fields of one record, in first-appearance order.
#[derive(Debug)]
pub struct Credentials {
    pub credentials: Vec<Credential>,
}

/// A key-value pair as character sequences.
pub type KvPair = (Seq<char>, Seq<char>);

/// The index of the first pair with the given key, or the length.
pub open spec fn key_index(acc: Seq<KvPair>, key: Seq<char>) -> int
    decreases acc.len(),
{
    if acc.len() == 0 {
        0
    } else if acc.first().0 == key {
        0
    } else {
        1 + key_index(acc.drop_first(), key)
    }
}

/// Adds a pair to the record: a repeated key replaces the value in place,
/// a new key goes to the end.
pub open spec fn upsert(acc: Seq<KvPair>, kv: KvPair) -> Seq<KvPair> {
    let ki = key_index(acc, kv.0);
    if ki < acc.len() {
        acc.update(ki, kv)
    } else {
        acc.push(kv)
    }
}

/// The key and value of one space-separated part: the text before and
/// after its first colon. A part without a colon carries no field.
pub open spec fn kv_of(part: Seq<char>) -> Option<KvPair> {
    let d = char_at_or_len(part, ':', 0);
    if d >= part.len() {
        None
    } else {
        Some((part.subrange(0, d), part.subrange(d + 1, part.len() as int)))
    }
}

/// Folds the fields of one line into the record, scanning parts from
/// position `i`.
pub open spec fn line_fold(acc: Seq<KvPair>, s: Seq<char>, i: int) -> Seq<KvPair>
    decreases s.len() - i,
    when 0 <= i
    via line_fold_decreases
{
    if i > s.len() {
        acc
    } else {
        let e = char_at_or_len(s, ' ', i);
        let acc2 = match kv_of(s.subrange(i, e)) {
            Some(kv) => upsert(acc, kv),
            None => acc,
        };
        if e >= s.len() {
            acc2
        } else {
            line_fold(acc2, s, e + 1)
        }
    }
}

#[via_fn]
proof fn line_fold_decreases(acc: Seq<KvPair>, s: Seq<char>, i: int) {
    if 0 <= i <= s.len() {
        lemma_char_at_or_len_bounds(s, ' ', i);
    }
}

/// Folds the fields of the lines `pos..e` into the record.
pub open spec fn group_fold(acc: Seq<KvPair>, lv: Seq<Seq<char>>, pos: int, e: int) -> Seq<KvPair>
    decreases e - pos,
    when pos <= e <= lv.len()
{
    if pos >= e {
        acc
    } else {
        group_fold(line_fold(acc, lv[pos], 0), lv, pos + 1, e)
    }
}

/// The index of the first empty line at or after `i`, or the length.
pub open spec fn first_empty_at(lv: Seq<Seq<char>>, i: int) -> int
    decreases lv.len() - i,
    when 0 <= i
{
    if i >= lv.len() {
        i
    } else if lv[i].len() == 0 {
        i
    } else {
        first_empty_at(lv, i + 1)
    }
}

/// The key-value records of the blank-line-separated batches, one record
/// per batch; the stream ends at its first empty batch.
pub open spec fn spec_groups(lv: Seq<Seq<char>>, pos: int) -> Seq<Seq<KvPair>>
    decreases
            if lv.len() - pos >= 0 {
                lv.len() - pos
            } else {
                0
            },
    when 0 <= pos
    via spec_groups_decreases
{
    if pos >= lv.len() {
        Seq::empty()
    } else {
        let e = first_empty_at(lv, pos);
        if e == pos {
            Seq::empty()
        } else {
            seq![group_fold(Seq::empty(), lv, pos, e)] + spec_groups(lv, e + 1)
        }
    }
}

/// A blank-line scan never moves backwards and stops by the end.
pub proof fn lemma_first_empty_at_bounds(lv: Seq<Seq<char>>, i: int)
    requires
        0 <= i,
    ensures
        i <= first_empty_at(lv, i),
        i < lv.len() ==> first_empty_at(lv, i) <= lv.len(),
    decreases lv.len() - i,
{
    if i < lv.len() && lv[i].len() != 0 {
        lemma_first_empty_at_bounds(lv, i + 1);
    }
}

#[via_fn]
proof fn spec_groups_decreases(lv: Seq<Seq<char>>, pos: int) {
    if 0 <= pos < lv.len() {
        lemma_first_empty_at_bounds(lv, pos);
    }
}

/// A key names one of the seven credential fields.
pub open spec fn known_key(k: Seq<char>) -> bool {
    ||| k == "byr"@
    ||| k == "iyr"@
    ||| k == "eyr"@
    ||| k == "hgt"@
    ||| k == "hcl"@
    ||| k == "ecl"@
    ||| k == "pid"@
}

/// The pairs with known keys, in order.
pub open spec fn known_pairs(kvs: Seq<KvPair>) -> Seq<KvPair>
    decreases kvs.len(),
{
    if kvs.len() == 0 {
        Seq::empty()
    } else {
        known_pairs(kvs.drop_last()) + if known_key(kvs.last().0) {
            seq![kvs.last()]
        } else {
            Seq::empty()
        }
    }
}

/// The credential value carries the field of this pair.
pub open spec fn cred_matches(c: Credential, kv: KvPair) -> bool {
    match c {
        Credential::BYR(v) => kv.0 == "byr"@ && v@ == kv.1,
        Credential::IYR(v) => kv.0 == "iyr"@ && v@ == kv.1,
        Credential::EYR(v) => kv.0 == "eyr"@ && v@ == kv.1,
        Credential::HGT(v) => kv.0 == "hgt"@ && v@ == kv.1,
        Credential::HCL(v) => kv.0 == "hcl"@ && v@ == kv.1,
        Credential::ECL(v) => kv.0 == "ecl"@ && v@ == kv.1,
        Credential::PID(v) => kv.0 == "pid"@ && v@ == kv.1,
    }
}

impl Credentials {
    /// Keeps the fields with known keys, in order, wrapping each in its
    /// named credential.
    pub fn new(data: Vec<(String, String)>) -> (r: Credentials)
        ensures
            ({
                let kp = known_pairs(data@.map_values(|p: (String, String)| (p.0@, p.1@)));
                &&& r.credentials@.len() == kp.len()
                &&& forall|i: int|
                    0 <= i < kp.len() ==> cred_matches(#[trigger] r.credentials@[i], kp[i])
            }),
    {
        let ghost dv = data@.map_values(|p: (String, String)| (p.0@, p.1@));
        let mut creds: Vec<Credential> = Vec::new();
        let n = data.len();
        for k in 0..n
            invariant
                n == data@.len(),
                dv == data@.map_values(|p: (String, String)| (p.0@, p.1@)),
                creds@.len() == known_pairs(dv.take(k as int)).len(),
                forall|i: int|
                    0 <= i < creds@.len() ==> cred_matches(
                        #[trigger] creds@[i],
                        known_pairs(dv.take(k as int))[i],
                    ),
        {
            proof {
                assert(dv.take(k + 1).drop_last() =~= dv.take(k as int));
                assert(dv.take(k + 1).last() == dv[k as int]);
                assert(dv[k as int] == (data@[k as int].0@, data@[k as int].1@));
            }
            let key = data[k].0.as_str();
            let value = &data[k].1;
            if eq_str(key, "byr") {
                creds.push(Credential::BYR(value.clone()));
            } else if eq_str(key, "iyr") {
                creds.push(Credential::IYR(value.clone()));
            } else if eq_str(key, "eyr") {
                creds.push(Credential::EYR(value.clone()));
            } else if eq_str(key, "hgt") {
                creds.push(Credential::HGT(value.clone()));
            } else if eq_str(key, "hcl") {
                creds.push(Credential::HCL(value.clone()));
            } else if eq_str(key, "ecl") {
                creds.push(Credential::ECL(value.clone()));
            } else if eq_str(key, "pid") {
                creds.push(Credential::PID(value.clone()));
            }
        }
        proof {
            assert(dv.take(n as int) =~= dv);
        }
        Credentials { credentials: creds }
    }

    /// A record is complete when all seven fields are present.
    pub fn is_valid_for_task_one(&self) -> (r: bool)
        ensures
            r == (self.credentials@.len() == 7),
    {
        self.credentials.len() == 7
    }

    /// A record passes the strict check when it is complete and every
    /// field's value is valid.
    pub fn is_valid_for_task_two(&self) -> (r: bool)
        ensures
            r == (self.credentials@.len() == 7 && forall|i: int|
                0 <= i < self.credentials@.len() ==> spec_credential_valid(
                    #[trigger] self.credentials@[i],
                )),
    {
        if self.credentials.len() != 7 {
            return false;
        }
        let n = self.credentials.len();
        for i in 0..n
            invariant
                n == self.credentials@.len(),
                forall|j: int|
                    0 <= j < i ==> spec_credential_valid(#[trigger] self.credentials@[j]),
        {
            if !self.credentials[i].is_valid() {
                return false;
            }
        }
        true
    }
}

/// The value is a decimal number between `start` and `end` inclusive.
pub open spec fn spec_number_between(v: Seq<char>, start: int, end: int) -> bool {
    &&& v.len() > 0
    &&& all_digits(v)
    &&& start <= decimal_value(v) <= end
}

/// Checks that a string is a decimal number between the two bounds.
pub fn is_number_between(value: &str, start: u16, end: u16) -> (r: bool)
    ensures
        r == spec_number_between(value@, start as int, end as int),
{
    let n = value.unicode_len();
    if n == 0 {
        return false;
    }
    let mut acc: u64 = 0;
    let mut over = false;
    for j in 0..n
        invariant
            n == value@.len(),
            forall|m: int| 0 <= m < j ==> 48 <= (#[trigger] value@[m]) as u32 <= 57,
            !over ==> acc == decimal_value(value@.take(j as int)) && acc <= u16::MAX,
            over ==> decimal_value(value@.take(j as int)) > u16::MAX,
    {
        let c = value.get_char(j);
        let b = c as u32;
        if b < 48 || b > 57 {
            return false;
        }
        proof {
            assert(value@.take(j + 1).drop_last() =~= value@.take(j as int));
            assert(value@.take(j + 1).last() == value@[j as int]);
        }
        if over {
            proof {
                let prev = decimal_value(value@.take(j as int));
                assert(decimal_value(value@.take(j + 1)) == prev * 10 + (b - 48));
            }
        } else {
            let next = acc * 10 + ((b - 48) as u64);
            if next > 65535 {
                over = true;
            } else {
                acc = next;
            }
        }
    }
    proof {
        assert(value@.take(n as int) =~= value@);
    }
    if over {
        proof {
            crate::file_util::lemma_decimal_value_monotonic(value@, value@.len() as int);
        }
        return false;
    }
    let v = acc as u16;
    v >= start && v <= end
}

/// A character is a hexadecimal digit.
pub open spec fn is_hex_digit(c: char) -> bool {
    ||| 48 <= c as u32 <= 57
    ||| 97 <= c as u32 <= 102
    ||| 65 <= c as u32 <= 70
}

/// The field value is valid: years in their ranges, a height in
/// centimetres or inches within bounds, a `#`-prefixed six-digit hex
/// colour, a named eye colour, or a nine-digit identifier.
pub open spec fn spec_credential_valid(c: Credential) -> bool {
    match c {
        Credential::EYR(v) => spec_number_between(v@, 2020, 2030),
        Credential::IYR(v) => spec_number_between(v@, 2010, 2020),
        Credential::BYR(v) => spec_number_between(v@, 1920, 2002),
        Credential::HCL(v) => v@.len() == 7 && v@[0] == '#' && (forall|i: int|
            1 <= i < 7 ==> is_hex_digit(#[trigger] v@[i])),
        Credential::HGT(v) => {
            if v@.len() >= 2 && v@[v@.len() - 2] == 'c' && v@[v@.len() - 1] == 'm' {
                spec_number_between(v@.subrange(0, v@.len() - 2), 150, 193)
            } else if v@.len() >= 2 && v@[v@.len() - 2] == 'i' && v@[v@.len() - 1] == 'n' {
                spec_number_between(v@.subrange(0, v@.len() - 2), 59, 76)
            } else {
                false
            }
        },
        Credential::ECL(v) => v@ == "amb"@ || v@ == "blu"@ || v@ == "brn"@ || v@ == "gry"@ || v@
            == "grn"@ || v@ == "hzl"@ || v@ == "oth"@,
        Credential::PID(v) => v@.len() == 9 && all_digits(v@),
    }
}

impl Credential {
    /// Checks this field's value against its validity rule.
    pub fn is_valid(&self) -> (r: bool)
        ensures
            r == spec_credential_valid(*self),
    {
        match self {
            Credential::EYR(v) => is_number_between(v.as_str(), 2020, 2030),
            Credential::IYR(v) => is_number_between(v.as_str(), 2010, 2020),
            Credential::BYR(v) => is_number_between(v.as_str(), 1920, 2002),
            Credential::HCL(v) => {
                let s = v.as_str();
                let n = s.unicode_len();
                if n != 7 {
                    return false;
                }
                if s.get_char(0) != '#' {
                    return false;
                }
                for i in 1..7usize
                    invariant
                        n == s@.len(),
                        n == 7,
                        s@ == v@,
                        *self == Credential::HCL(*v),
                        s@[0] == '#',
                        forall|j: int| 1 <= j < i ==> is_hex_digit(#[trigger] s@[j]),
                {
                    let b = s.get_char(i) as u32;
                    if !(48 <= b && b <= 57 || 97 <= b && b <= 102 || 65 <= b && b <= 70) {
                        proof {
                            assert(!is_hex_digit(v@[i as int]));
                        }
                        return false;
                    }
                }
                true
            },
            Credential::HGT(v) => {
                let s = v.as_str();
                let n = s.unicode_len();
                if n < 2 {
                    return false;
                }
                let c1 = s.get_char(n - 2);
                let c2 = s.get_char(n - 1);
                let prefix = s.substring_char(0, n - 2);
                if c1 == 'c' && c2 == 'm' {
                    is_number_between(prefix, 150, 193)
                } else if c1 == 'i' && c2 == 'n' {
                    is_number_between(prefix, 59, 76)
                } else {
                    false
                }
            },
            Credential::ECL(v) => {
                let s = v.as_str();
                eq_str(s, "amb") || eq_str(s, "blu") || eq_str(s, "brn") || eq_str(s, "gry")
                    || eq_str(s, "grn") || eq_str(s, "hzl") || eq_str(s, "oth")
            },
            Credential::PID(v) => {
                let s = v.as_str();
                let n = s.unicode_len();
                if n != 9 {
                    return false;
                }
                for i in 0..9usize
                    invariant
                        n == s@.len(),
                        n == 9,
                        s@ == v@,
                        *self == Credential::PID(*v),
                        forall|j: int| 0 <= j < i ==> 48 <= (#[trigger] s@[j]) as u32 <= 57,
                {
                    let b = s.get_char(i) as u32;
                    if !(48 <= b && b <= 57) {
                        proof {
                            assert(!(48 <= (v@[i as int]) as u32 <= 57));
                        }
                        return false;
                    }
                }
                true
            },
        }
    }
}

/// The key-value views of the collected pairs.
pub open spec fn kvs_view(kvs: Seq<(String, String)>) -> Seq<KvPair> {
    kvs.map_values(|p: (String, String)| (p.0@, p.1@))
}

/// The first index whose pair carries `key` is `key_index`.
proof fn lemma_key_index_at(acc: Seq<KvPair>, key: Seq<char>, idx: int)
    requires
        0 <= idx <= acc.len(),
        forall|j: int| 0 <= j < idx ==> (#[trigger] acc[j]).0 != key,
        idx < acc.len() ==> acc[idx].0 == key,
    ensures
        key_index(acc, key) == idx,
    decreases acc.len(),
{
    if acc.len() > 0 && idx > 0 {
        assert(acc[0].0 != key);
        assert forall|j: int| 0 <= j < idx - 1 implies (#[trigger] acc.drop_first()[j]).0
            != key by {
            assert(acc.drop_first()[j] == acc[j + 1]);
        }
        lemma_key_index_at(acc.drop_first(), key, idx - 1);
    }
}

/// Adds one pair to the record being built: a repeated key replaces the
/// value at its place, a new key goes to the end.
fn upsert_pair(kvs: &mut Vec<(String, String)>, key: String, value: String)
    ensures
        kvs_view(final(kvs)@) == upsert(kvs_view(old(kvs)@), (key@, value@)),
{
    let ghost acc = kvs_view(old(kvs)@);
    let n = kvs.len();
    let mut ki: usize = 0;
    loop
        invariant
            ki <= n,
            n == kvs@.len(),
            kvs@ == old(kvs)@,
            acc == kvs_view(kvs@),
            forall|j: int| 0 <= j < ki ==> (#[trigger] acc[j]).0 != key@,
        ensures
            kvs@ == old(kvs)@,
            ki <= n,
            forall|j: int| 0 <= j < ki ==> (#[trigger] acc[j]).0 != key@,
            ki < n ==> acc[ki as int].0 == key@,
            ki == n ==> forall|j: int| 0 <= j < n ==> (#[trigger] acc[j]).0 != key@,
        decreases n - ki,
    {
        if ki >= n {
            break ;
        }
        proof {
            assert(acc[ki as int] == (kvs@[ki as int].0@, kvs@[ki as int].1@));
        }
        if eq_str(kvs[ki].0.as_str(), key.as_str()) {
            break ;
        }
        ki = ki + 1;
    }
    proof {
        lemma_key_index_at(acc, key@, ki as int);
    }
    if ki < n {
        kvs[ki] = (key, value);
        proof {
            assert(kvs_view(kvs@) =~= acc.update(ki as int, (key@, value@)));
        }
    } else {
        kvs.push((key, value));
        proof {
            assert(kvs_view(kvs@) =~= acc.push((key@, value@)));
        }
    }
}

/// Reads the fields of one line into the record being built.
fn fold_line(kvs: &mut Vec<(String, String)>, line: &str)
    ensures
        kvs_view(final(kvs)@) == line_fold(kvs_view(old(kvs)@), line@, 0),
{
    let len = line.unicode_len();
    let mut i: usize = 0;
    loop
        invariant_except_break
            line_fold(kvs_view(old(kvs)@), line@, 0) == line_fold(kvs_view(kvs@), line@, i as int),
        invariant
            len == line@.len(),
            i <= len,
        ensures
            kvs_view(kvs@) == line_fold(kvs_view(old(kvs)@), line@, 0),
        decreases len - i,
    {
        let ghost acc_at_i = kvs_view(kvs@);
        let e = find_char_from(line, i, ' ');
        let d = find_char_from(line, i, ':');
        let ghost part = line@.subrange(i as int, e as int);
        if d < e {
            let key = line.substring_char(i, d).to_owned();
            let value = line.substring_char(d + 1, e).to_owned();
            proof {
                assert(char_at_or_len(part, ':', 0) == d - i) by {
                    lemma_char_at_or_len_subrange(line@, i as int, e as int, d as int, ':');
                }
                assert(part.subrange(0, d - i) =~= line@.subrange(i as int, d as int));
                assert(part.subrange(d - i + 1, part.len() as int) =~= line@.subrange(
                    d + 1,
                    e as int,
                ));
                assert(kv_of(part) == Some((key@, value@)));
            }
            upsert_pair(kvs, key, value);
        } else {
            proof {
                assert(char_at_or_len(part, ':', 0) == part.len()) by {
                    lemma_char_at_or_len_none(line@, i as int, e as int, d as int, ':');
                }
                assert(kv_of(part) is None);
            }
        }
        if e >= len {
            proof {
                assert(line_fold(acc_at_i, line@, i as int) == kvs_view(kvs@));
            }
            break ;
        }
        proof {
            assert(line_fold(acc_at_i, line@, i as int) == line_fold(
                kvs_view(kvs@),
                line@,
                e as int + 1,
            ));
        }
        i = e + 1;
    }
}

/// A colon inside the part keeps its relative position.
proof fn lemma_char_at_or_len_subrange(s: Seq<char>, i: int, e: int, d: int, c: char)
    requires
        0 <= i <= d < e <= s.len(),
        char_at_or_len(s, c, i) == d,
        d == char_at_or_len(s, c, i),
    ensures
        char_at_or_len(s.subrange(i, e), c, 0) == d - i,
{
    lemma_char_scan_shift(s, i, e, i, d, c);
}

/// No colon in the part means the scan of the part runs to its end.
proof fn lemma_char_at_or_len_none(s: Seq<char>, i: int, e: int, d: int, c: char)
    requires
        0 <= i <= e <= d <= s.len(),
        char_at_or_len(s, c, i) == d,
    ensures
        char_at_or_len(s.subrange(i, e), c, 0) == e - i,
{
    lemma_char_scan_shift_none(s, i, e, i, d, c);
}

/// Scanning a subrange mirrors scanning the whole, while the hit lies
/// inside the subrange.
proof fn lemma_char_scan_shift(s: Seq<char>, i: int, e: int, p: int, d: int, c: char)
    requires
        0 <= i <= p <= d < e <= s.len(),
        char_at_or_len(s, c, p) == d,
    ensures
        char_at_or_len(s.subrange(i, e), c, p - i) == d - i,
    decreases d - p,
{
    let sub = s.subrange(i, e);
    if p == d {
        assert(p < s.len());
        assert(s[p] == c) by {
            if s[p] != c {
                lemma_char_at_or_len_bounds(s, c, p + 1);
            }
        }
        assert(sub[p - i] == s[p]);
        assert(char_at_or_len(sub, c, p - i) == p - i);
    } else {
        assert(s[p] != c) by {
            if s[p] == c {
                assert(char_at_or_len(s, c, p) == p);
            }
        }
        assert(sub[p - i] == s[p]);
        lemma_char_scan_shift(s, i, e, p + 1, d, c);
    }
}

/// Scanning a subrange runs to its end when the whole scan's hit lies at
/// or past the subrange's end.
proof fn lemma_char_scan_shift_none(s: Seq<char>, i: int, e: int, p: int, d: int, c: char)
    requires
        0 <= i <= p <= e <= d <= s.len(),
        char_at_or_len(s, c, p) == d,
    ensures
        char_at_or_len(s.subrange(i, e), c, p - i) == e - i,
    decreases e - p,
{
    let sub = s.subrange(i, e);
    if p < e {
        assert(s[p] != c) by {
            if s[p] == c {
                assert(char_at_or_len(s, c, p) == p);
            }
        }
        assert(sub[p - i] == s[p]);
        lemma_char_scan_shift_none(s, i, e, p + 1, d, c);
    }
}

/// Groups the lines into blank-line-separated batches and reads each as a
/// credential record; reading stops at an empty batch.
pub fn convert_to_credentials(lines: &Vec<String>) -> (r: Vec<Credentials>)
    ensures
        ({
            let gs = spec_groups(lines_view(lines@), 0);
            &&& r@.len() == gs.len()
            &&& forall|g: int|
                0 <= g < gs.len() ==> ({
                    let kp = known_pairs(gs[g]);
                    (#[trigger] r@[g]).credentials@.len() == kp.len() && forall|i: int|
                        0 <= i < kp.len() ==> cred_matches(#[trigger] r@[g].credentials@[i], kp[i])
                })
        }),
{
    let ghost lv = lines_view(lines@);
    let mut out: Vec<Credentials> = Vec::new();
    let ghost mut done: Seq<Seq<KvPair>> = Seq::empty();
    let mut pos: usize = 0;
    let n = lines.len();
    loop
        invariant
            lv == lines_view(lines@),
            n == lines@.len(),
            pos <= n,
            spec_groups(lv, 0) == done + spec_groups(lv, pos as int),
            out@.len() == done.len(),
            forall|g: int|
                0 <= g < done.len() ==> ({
                    let kp = known_pairs(done[g]);
                    (#[trigger] out@[g]).credentials@.len() == kp.len() && forall|i: int|
                        0 <= i < kp.len() ==> cred_matches(#[trigger] out@[g].credentials@[i], kp[i])
                }),
        ensures
            spec_groups(lv, 0) == done,
            out@.len() == done.len(),
            forall|g: int|
                0 <= g < done.len() ==> ({
                    let kp = known_pairs(done[g]);
                    (#[trigger] out@[g]).credentials@.len() == kp.len() && forall|i: int|
                        0 <= i < kp.len() ==> cred_matches(#[trigger] out@[g].credentials@[i], kp[i])
                }),
        decreases n - pos,
    {
        if pos >= n {
            proof {
                assert(spec_groups(lv, pos as int) =~= Seq::<Seq<KvPair>>::empty());
                assert(done + Seq::<Seq<KvPair>>::empty() =~= done);
            }
            break ;
        }
        proof {
            assert(lv[pos as int] == lines@[pos as int]@);
        }
        if lines[pos].as_str().unicode_len() == 0 {
            proof {
                assert(first_empty_at(lv, pos as int) == pos as int);
                assert(spec_groups(lv, pos as int) =~= Seq::<Seq<KvPair>>::empty());
                assert(done + Seq::<Seq<KvPair>>::empty() =~= done);
            }
            break ;
        }
        let mut kvs: Vec<(String, String)> = Vec::new();
        let mut cur = pos;
        loop
            invariant
                lv == lines_view(lines@),
                n == lines@.len(),
                pos <= cur <= n,
                first_empty_at(lv, pos as int) == first_empty_at(lv, cur as int),
                kvs_view(kvs@) == group_fold(Seq::empty(), lv, pos as int, cur as int),
            ensures
                pos <= cur <= n,
                cur as int == first_empty_at(lv, pos as int),
                kvs_view(kvs@) == group_fold(Seq::empty(), lv, pos as int, cur as int),
            decreases n - cur,
        {
            if cur >= n {
                break ;
            }
            proof {
                assert(lv[cur as int] == lines@[cur as int]@);
            }
            let line = lines[cur].as_str();
            if line.unicode_len() == 0 {
                break ;
            }
            fold_line(&mut kvs, line);
            proof {
                lemma_group_fold_step(lv, pos as int, cur as int);
            }
            cur = cur + 1;
        }
        let ghost e = cur as int;
        let ghost group = group_fold(Seq::empty(), lv, pos as int, e);
        proof {
            lemma_first_empty_at_bounds(lv, pos as int + 1);
            assert(first_empty_at(lv, pos as int) == first_empty_at(lv, pos as int + 1));
            assert(e > pos as int);
            assert(spec_groups(lv, pos as int) == seq![group] + spec_groups(lv, e + 1));
            assert(done + spec_groups(lv, pos as int) =~= (done + seq![group]) + spec_groups(
                lv,
                e + 1,
            ));
        }
        let creds = Credentials::new(kvs);
        out.push(creds);
        proof {
            done = done + seq![group];
        }
        pos = if cur < n {
            cur + 1
        } else {
            cur
        };
        proof {
            if e + 1 > n {
                assert(spec_groups(lv, e + 1) =~= Seq::<Seq<KvPair>>::empty());
                assert(spec_groups(lv, pos as int) =~= Seq::<Seq<KvPair>>::empty());
            }
        }
    }
    out
}

/// Folding one more line extends the group fold by that line.
proof fn lemma_group_fold_step(lv: Seq<Seq<char>>, pos: int, cur: int)
    requires
        0 <= pos <= cur < lv.len(),
    ensures
        group_fold(
            line_fold(group_fold(Seq::empty(), lv, pos, cur), lv[cur], 0),
            lv,
            cur + 1,
            cur + 1,
        ) == group_fold(Seq::empty(), lv, pos, cur + 1),
    decreases cur - pos,
{
    lemma_group_fold_append(lv, Seq::empty(), pos, cur);
}

/// A group fold over one more line equals folding the extra line after
/// the shorter fold.
proof fn lemma_group_fold_append(lv: Seq<Seq<char>>, acc: Seq<KvPair>, pos: int, cur: int)
    requires
        0 <= pos <= cur < lv.len(),
    ensures
        group_fold(acc, lv, pos, cur + 1) == line_fold(group_fold(acc, lv, pos, cur), lv[cur], 0),
    decreases cur - pos,
{
    if pos < cur {
        lemma_group_fold_append(lv, line_fold(acc, lv[pos], 0), pos + 1, cur);
    } else {
        assert(group_fold(acc, lv, pos, cur) == acc);
        assert(group_fold(acc, lv, pos, cur + 1) == group_fold(
            line_fold(acc, lv[pos], 0),
            lv,
            pos + 1,
            cur + 1,
        ));
        assert(group_fold(line_fold(acc, lv[pos], 0), lv, pos + 1, cur + 1) == line_fold(
            acc,
            lv[pos],
            0,
        ));
    }
}

} // verus!
