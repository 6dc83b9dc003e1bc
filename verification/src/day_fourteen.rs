//! Docking program bitmasks: writing values through a mask, and spreading
//! floating mask bits over all addresses they reach.

use vstd::prelude::*;

use std::collections::HashMap;

use crate::file_util::eq_str;
use crate::file_util::lines_view;
use crate::file_util::parse_usize;
use crate::file_util::spec_parse_usize;

verus! {

/// One mask line and the memory assignments under it.
#[derive(Debug)]
pub struct Instructions {
    pub mask: String,
    pub assignments: Vec<(usize, usize)>,
}

/// The mask read as binary with the given characters as one bits: ones for
/// `'1'` when `ones` is set, ones for everything but `'0'` otherwise.
pub open spec fn mask_value(s: Seq<char>, ones: bool) -> int
    decreases s.len(),
{
    if s.len() == 0 {
        0
    } else {
        mask_value(s.drop_last(), ones) * 2 + if (ones && s.last() == '1') || (!ones && s.last()
            != '0') {
            1int
        } else {
            0int
        }
    }
}

/// A mask reading is never negative.
pub proof fn lemma_mask_value_nonneg(s: Seq<char>, ones: bool)
    ensures
        mask_value(s, ones) >= 0,
    decreases s.len(),
{
    if s.len() > 0 {
        lemma_mask_value_nonneg(s.drop_last(), ones);
    }
}

/// The mask's one bits as a number, when the mask is non-empty and fits.
pub open spec fn spec_ones_mask(s: Seq<char>) -> Option<usize> {
    if s.len() > 0 && mask_value(s, true) <= usize::MAX {
        Some(mask_value(s, true) as usize)
    } else {
        None
    }
}

/// The mask's non-zero bits as a number, when the mask is non-empty and
/// fits.
pub open spec fn spec_zeros_mask(s: Seq<char>) -> Option<usize> {
    if s.len() > 0 && mask_value(s, false) <= usize::MAX {
        Some(mask_value(s, false) as usize)
    } else {
        None
    }
}

/// Reads the mask's one bits as a number.
pub fn get_ones_mask(mask: &str) -> (r: Option<usize>)
    ensures
        r == spec_ones_mask(mask@),
{
    match read_mask(mask, true) {
        Some(v) => Some(v),
        None => None,
    }
}

/// Reads the mask's bits as a number: ones at `'1'` when `ones` is set,
/// ones at everything but `'0'` otherwise.
fn read_mask(mask: &str, ones: bool) -> (r: Option<usize>)
    ensures
        ones ==> r == spec_ones_mask(mask@),
        !ones ==> r == spec_zeros_mask(mask@),
{
    let n = mask.unicode_len();
    if n == 0 {
        return None;
    }
    let mut acc: u128 = 0;
    let mut over = false;
    for j in 0..n
        invariant
            n == mask@.len(),
            !over ==> acc == mask_value(mask@.take(j as int), ones) && acc <= usize::MAX,
            over ==> mask_value(mask@.take(j as int), ones) > usize::MAX,
    {
        let c = mask.get_char(j);
        proof {
            assert(mask@.take(j + 1).drop_last() =~= mask@.take(j as int));
            assert(mask@.take(j + 1).last() == mask@[j as int]);
        }
        let bit: u128 = if (ones && c == '1') || (!ones && c != '0') {
            1
        } else {
            0
        };
        if over {
            proof {
                let prev = mask_value(mask@.take(j as int), ones);
                assert(mask_value(mask@.take(j + 1), ones) == prev * 2 + if (ones && mask@[j as int]
                    == '1') || (!ones && mask@[j as int] != '0') {
                    1int
                } else {
                    0int
                });
            }
        } else {
            let next = acc * 2 + bit;
            if next > (usize::MAX as u128) {
                over = true;
            } else {
                acc = next;
            }
        }
    }
    proof {
        assert(mask@.take(n as int) =~= mask@);
    }
    if over {
        return None;
    }
    Some(acc as usize)
}

/// The floating bits of the mask, nearest the mask's end first: the bit
/// value of each `X` position, counting positions from the right.
pub open spec fn x_bits_upto(s: Seq<char>, k: int) -> Seq<usize>
    decreases k,
    when 0 <= k <= s.len() <= usize::BITS
{
    if k <= 0 {
        Seq::empty()
    } else {
        x_bits_upto(s, k - 1) + if s[s.len() - k] == 'X' {
            seq![(1usize << ((k - 1) as usize))]
        } else {
            Seq::<usize>::empty()
        }
    }
}

/// Splits every pair into the one that takes the bit into its first
/// component and the one that takes it into its second.
pub open spec fn spread(pairs: Seq<(usize, usize)>, e: usize) -> Seq<(usize, usize)> {
    pairs.map_values(|p: (usize, usize)| ((p.0 | e) as usize, p.1)) + pairs.map_values(
        |p: (usize, usize)| (p.0, (p.1 | e) as usize),
    )
}

/// The distributions of the floating bits over the two components: one
/// pair for every way to divide the bits.
pub open spec fn spec_x_masks(bits: Seq<usize>) -> Seq<(usize, usize)>
    decreases bits.len(),
{
    if bits.len() == 0 {
        seq![(0usize, 0usize)]
    } else {
        spread(spec_x_masks(bits.drop_last()), bits.last())
    }
}

/// The memory written by the assignments of one mask in the floating
/// reading: each target address is the assignment's address with the
/// mask's one bits forced on, a chosen division's first bits forced on and
/// its second bits forced off.
pub open spec fn write_xmasks(
    m: Map<usize, usize>,
    address: usize,
    value: usize,
    xs: Seq<(usize, usize)>,
) -> Map<usize, usize>
    decreases xs.len(),
{
    if xs.len() == 0 {
        m
    } else {
        write_xmasks(m, address, value, xs.drop_last()).insert(
            ((address | xs.last().0) & !xs.last().1) as usize,
            value,
        )
    }
}

/// The memory after the assignments of one instruction.
pub open spec fn write_assignments(
    m: Map<usize, usize>,
    ones: usize,
    assignments: Seq<(usize, usize)>,
    xs: Seq<(usize, usize)>,
) -> Map<usize, usize>
    decreases assignments.len(),
{
    if assignments.len() == 0 {
        m
    } else {
        write_xmasks(
            write_assignments(m, ones, assignments.drop_last(), xs),
            (assignments.last().0 | ones) as usize,
            assignments.last().1,
            xs,
        )
    }
}

/// The view of the instruction list: each mask with its assignments.
pub open spec fn insts_view(insts: Seq<Instructions>) -> Seq<(Seq<char>, Seq<(usize, usize)>)> {
    insts.map_values(|i: Instructions| (i.mask@, i.assignments@))
}

/// The memory after the first `k` instructions in the floating reading:
/// an instruction whose mask has no number is skipped.
pub open spec fn spec_task_two(iv: Seq<(Seq<char>, Seq<(usize, usize)>)>, k: int) -> Map<
    usize,
    usize,
>
    decreases k,
    when 0 <= k
{
    if k <= 0 {
        Map::empty()
    } else {
        let m = spec_task_two(iv, k - 1);
        let mask = iv[k - 1].0;
        match spec_ones_mask(mask) {
            None => m,
            Some(ones) => write_assignments(
                m,
                ones,
                iv[k - 1].1,
                spec_x_masks(x_bits_upto(mask, mask.len() as int)),
            ),
        }
    }
}

/// The memory after the first `k` instructions in the value-mask reading:
/// each assignment stores its value with the mask's one bits forced on and
/// its zero bits forced off; an instruction whose mask has no number is
/// skipped.
pub open spec fn spec_task_one(iv: Seq<(Seq<char>, Seq<(usize, usize)>)>, k: int) -> Map<
    usize,
    usize,
>
    decreases k,
    when 0 <= k
{
    if k <= 0 {
        Map::empty()
    } else {
        let m = spec_task_one(iv, k - 1);
        let mask = iv[k - 1].0;
        match (spec_ones_mask(mask), spec_zeros_mask(mask)) {
            (Some(ones), Some(zeros)) => write_masked_values(m, ones, zeros, iv[k - 1].1),
            _ => m,
        }
    }
}

/// The memory written by one instruction's assignments in the value-mask
/// reading.
pub open spec fn write_masked_values(
    m: Map<usize, usize>,
    ones: usize,
    zeros: usize,
    assignments: Seq<(usize, usize)>,
) -> Map<usize, usize>
    decreases assignments.len(),
{
    if assignments.len() == 0 {
        m
    } else {
        write_masked_values(m, ones, zeros, assignments.drop_last()).insert(
            assignments.last().0,
            ((assignments.last().1 | ones) & zeros) as usize,
        )
    }
}

/// Runs the docking program in the value-mask reading: values pass through
/// each mask before they are stored.
pub fn execute_task_one(instructions: &Vec<Instructions>) -> (r: HashMap<usize, usize>)
    ensures
        r@ == spec_task_one(insts_view(instructions@), instructions@.len() as int),
{
    let ghost iv = insts_view(instructions@);
    let mut address_space: HashMap<usize, usize> = HashMap::new();
    let n = instructions.len();
    for k in 0..n
        invariant
            iv == insts_view(instructions@),
            n == instructions@.len(),
            address_space@ == spec_task_one(iv, k as int),
    {
        proof {
            assert(iv[k as int] == (instructions@[k as int].mask@, instructions@[k as int].assignments@));
        }
        let instruction = &instructions[k];
        let ones_mask = read_mask(instruction.mask.as_str(), true);
        let zeros_mask = read_mask(instruction.mask.as_str(), false);
        match (ones_mask, zeros_mask) {
            (Some(ones), Some(zeros)) => {
                let an = instruction.assignments.len();
                for j in 0..an
                    invariant
                        iv == insts_view(instructions@),
                        n == instructions@.len(),
                        k < n,
                        an == instruction.assignments@.len(),
                        instruction == &instructions[k as int],
                        iv[k as int] == (instruction.mask@, instruction.assignments@),
                        Some(ones) == spec_ones_mask(instruction.mask@),
                        Some(zeros) == spec_zeros_mask(instruction.mask@),
                        address_space@ == write_masked_values(
                            spec_task_one(iv, k as int),
                            ones,
                            zeros,
                            instruction.assignments@.take(j as int),
                        ),
                {
                    proof {
                        assert(instruction.assignments@.take(j + 1).drop_last()
                            =~= instruction.assignments@.take(j as int));
                        assert(instruction.assignments@.take(j + 1).last()
                            == instruction.assignments@[j as int]);
                    }
                    let (addr, value) = instruction.assignments[j];
                    address_space.insert(addr, (value | ones) & zeros);
                }
                proof {
                    assert(instruction.assignments@.take(an as int)
                        =~= instruction.assignments@);
                }
            },
            _ => {
                proof {
                    assert(spec_task_one(iv, k + 1) == spec_task_one(iv, k as int));
                }
            },
        }
    }
    address_space
}

/// The index of the first ` = ` separator at or after `i`, or the length.
pub open spec fn find_eq(s: Seq<char>, i: int) -> int
    decreases s.len() - i,
    when 0 <= i
{
    if i + 3 > s.len() {
        s.len() as int
    } else if s[i] == ' ' && s[i + 1] == '=' && s[i + 2] == ' ' {
        i
    } else {
        find_eq(s, i + 1)
    }
}

/// The text of a stored mask line: everything after its seven-character
/// prefix, or nothing when the line is shorter than that.
pub open spec fn mask_text(m: Seq<char>) -> Seq<char> {
    if m.len() >= 7 {
        m.skip(7)
    } else {
        Seq::empty()
    }
}

/// The program state after one more line: a line without the separator
/// changes nothing; a `mask` key closes the open group (its mask text is
/// the line after the prefix) and opens a new one on the whole line; any
/// other key adds an assignment when its bracketed address and its value
/// are plain numbers.
pub open spec fn parse_step(
    st: (Seq<char>, Seq<(usize, usize)>, Seq<(Seq<char>, Seq<(usize, usize)>)>),
    line: Seq<char>,
) -> (Seq<char>, Seq<(usize, usize)>, Seq<(Seq<char>, Seq<(usize, usize)>)>) {
    let d = find_eq(line, 0);
    if d >= line.len() {
        st
    } else {
        let key = line.subrange(0, d);
        let value = line.subrange(d + 3, line.len() as int);
        if key == "mask"@ {
            (line, Seq::empty(), st.2.push((mask_text(st.0), st.1)))
        } else {
            if key.len() >= 5 {
                match (spec_parse_usize(key.subrange(4, key.len() - 1)), spec_parse_usize(value)) {
                    (Some(a), Some(v)) => (st.0, st.1.push((a, v)), st.2),
                    _ => st,
                }
            } else {
                st
            }
        }
    }
}

/// The program state after the first `k` lines: the open mask line, its
/// assignments so far, and the closed groups.
pub open spec fn parse_state(lv: Seq<Seq<char>>, k: int) -> (
    Seq<char>,
    Seq<(usize, usize)>,
    Seq<(Seq<char>, Seq<(usize, usize)>)>,
)
    decreases k,
    when 1 <= k
{
    if k <= 1 {
        (lv[0], Seq::empty(), Seq::empty())
    } else {
        parse_step(parse_state(lv, k - 1), lv[k - 1])
    }
}

/// The mask groups of the program text: the first line opens the first
/// group whatever it holds, and the line of the last group stays whole,
/// prefix included, as the original reader left it.
pub open spec fn spec_parse_lines(lv: Seq<Seq<char>>) -> Seq<(Seq<char>, Seq<(usize, usize)>)> {
    if lv.len() == 0 {
        Seq::empty()
    } else {
        let st = parse_state(lv, lv.len() as int);
        st.2.push((st.0, st.1))
    }
}

/// The index of the first ` = ` separator at or after `from`.
fn find_eq_from(s: &str, from: usize) -> (r: usize)
    requires
        from <= s@.len(),
    ensures
        r == find_eq(s@, from as int),
        from <= r <= s@.len(),
        r < s@.len() ==> r + 3 <= s@.len(),
{
    let n = s.unicode_len();
    let mut i = from;
    loop
        invariant
            from <= i <= n,
            n == s@.len(),
            find_eq(s@, from as int) == find_eq(s@, i as int),
        ensures
            from <= i <= n,
            n == s@.len(),
            find_eq(s@, from as int) == find_eq(s@, i as int),
            n - i < 3 || (s@[i as int] == ' ' && s@[i as int + 1] == '=' && s@[i as int + 2]
                == ' '),
        decreases n - i,
    {
        if n - i < 3 {
            break ;
        }
        if s.get_char(i) == ' ' && s.get_char(i + 1) == '=' && s.get_char(i + 2) == ' ' {
            break ;
        }
        proof {
            assert(find_eq(s@, i as int) == find_eq(s@, i as int + 1));
        }
        i = i + 1;
    }
    if n - i < 3 {
        proof {
            assert(find_eq(s@, i as int) == n as int);
        }
        n
    } else {
        proof {
            assert(find_eq(s@, i as int) == i as int);
        }
        i
    }
}

/// Reads the program text into its mask groups. The first line opens the
/// first group; each `mask` line closes the open group and opens the next;
/// each `mem[address] = value` line adds an assignment. The last group
/// keeps its mask line whole, prefix included, as the original reader
/// left it, so the mask reader then judges that raw line.
pub fn parse_lines(lines: &Vec<String>) -> (r: Vec<Instructions>)
    ensures
        ({
            let ps = spec_parse_lines(lines_view(lines@));
            &&& r@.len() == ps.len()
            &&& forall|g: int|
                0 <= g < ps.len() ==> (#[trigger] r@[g]).mask@ == ps[g].0 && r@[g].assignments@
                    == ps[g].1
        }),
{
    let ghost lv = lines_view(lines@);
    let n = lines.len();
    let mut result: Vec<Instructions> = Vec::new();
    if n == 0 {
        return result;
    }
    proof {
        assert(lv[0] == lines@[0]@);
    }
    let mut mask_line: String = lines[0].clone();
    let mut assignments: Vec<(usize, usize)> = Vec::new();
    for k in 1..n
        invariant
            lv == lines_view(lines@),
            n == lines@.len(),
            n >= 1,
            ({
                let st = parse_state(lv, k as int);
                &&& mask_line@ == st.0
                &&& assignments@ == st.1
                &&& result@.len() == st.2.len()
                &&& forall|g: int|
                    0 <= g < st.2.len() ==> (#[trigger] result@[g]).mask@ == st.2[g].0
                        && result@[g].assignments@ == st.2[g].1
            }),
    {
        proof {
            assert(lv[k as int] == lines@[k as int]@);
        }
        let line = lines[k].as_str();
        let len = line.unicode_len();
        let d = find_eq_from(line, 0);
        if d < len {
            let key = line.substring_char(0, d);
            let value = line.substring_char(d + 3, len);
            if eq_str(key, "mask") {
                let mask_len = mask_line.as_str().unicode_len();
                let text = if mask_len >= 7 {
                    mask_line.as_str().substring_char(7, mask_len).to_owned()
                } else {
                    String::new()
                };
                proof {
                    assert(text@ =~= mask_text(mask_line@));
                }
                let current_assignments = assignments;
                assignments = Vec::new();
                result.push(Instructions { mask: text, assignments: current_assignments });
                mask_line = lines[k].clone();
            } else {
                let key_len = key.unicode_len();
                if key_len >= 5 {
                    let addr = parse_usize(key.substring_char(4, key_len - 1));
                    let val = parse_usize(value);
                    match (addr, val) {
                        (Some(a), Some(v)) => {
                            assignments.push((a, v));
                        },
                        _ => {},
                    }
                }
            }
        }
        proof {
            assert(parse_state(lv, k + 1) == parse_step(parse_state(lv, k as int), lv[k as int]));
        }
    }
    proof {
        if n == 1 {
            assert(parse_state(lv, 1).0 == lv[0]);
        }
    }
    result.push(Instructions { mask: mask_line, assignments });
    result
}

/// Reads the floating bits of a mask, nearest the end first.
fn collect_x_bits(mask: &str) -> (r: Vec<usize>)
    requires
        mask@.len() <= usize::BITS,
    ensures
        r@ == x_bits_upto(mask@, mask@.len() as int),
{
    let n = mask.unicode_len();
    let mut out: Vec<usize> = Vec::new();
    for k in 1..n + 1
        invariant
            n == mask@.len(),
            n <= usize::BITS,
            out@ == x_bits_upto(mask@, k - 1),
    {
        let c = mask.get_char(n - k);
        if c == 'X' {
            proof {
                assert(1 <= k <= usize::BITS);
            }
            out.push(1usize << ((k - 1) as usize));
        }
        proof {
            assert(out@ =~= x_bits_upto(mask@, k as int));
        }
    }
    out
}

/// Builds every division of the floating bits over the two components.
fn build_x_masks(bits: &Vec<usize>) -> (r: Vec<(usize, usize)>)
    ensures
        r@ == spec_x_masks(bits@),
{
    let mut buff: Vec<(usize, usize)> = vec![(0, 0)];
    let n = bits.len();
    proof {
        assert(bits@.take(0) =~= Seq::<usize>::empty());
        assert(buff@ =~= spec_x_masks(bits@.take(0)));
    }
    for k in 0..n
        invariant
            n == bits@.len(),
            buff@ == spec_x_masks(bits@.take(k as int)),
    {
        let e = bits[k];
        let m = buff.len();
        let ghost buff0 = buff@;
        let mut idx: usize = 0;
        let mut to_append: Vec<(usize, usize)> = Vec::new();
        while idx < m
            invariant
                m == buff0.len(),
                buff@.len() == m,
                idx <= m,
                to_append@.len() == idx,
                forall|q: int| idx <= q < m ==> #[trigger] buff@[q] == buff0[q],
                forall|q: int|
                    0 <= q < idx ==> #[trigger] buff@[q] == ((buff0[q].0 | e) as usize,
                    buff0[q].1),
                forall|q: int|
                    0 <= q < idx ==> #[trigger] to_append@[q] == (buff0[q].0, (buff0[q].1
                        | e) as usize),
            decreases m - idx,
        {
            let (m0, m1) = buff[idx];
            to_append.push((m0, (m1 | e)));
            buff[idx] = ((m0 | e), m1);
            idx = idx + 1;
        }
        buff.append(&mut to_append);
        proof {
            assert(bits@.take(k + 1).drop_last() =~= bits@.take(k as int));
            assert(bits@.take(k + 1).last() == bits@[k as int]);
            assert(buff@ =~= spread(buff0, e));
        }
    }
    proof {
        assert(bits@.take(n as int) =~= bits@);
    }
    buff
}

/// Runs the docking program in the floating reading: each mask's `X` bits
/// range over all their settings, and every reached address takes the
/// assigned value. An instruction whose mask has no number is skipped.
pub fn execute_task_two(instructions: &Vec<Instructions>) -> (r: HashMap<usize, usize>)
    requires
        forall|k: int| 0 <= k < instructions@.len() ==> (#[trigger] instructions@[k]).mask@.len()
            <= usize::BITS,
    ensures
        r@ == spec_task_two(insts_view(instructions@), instructions@.len() as int),
{
    let ghost iv = insts_view(instructions@);
    let mut address_space: HashMap<usize, usize> = HashMap::new();
    let n = instructions.len();
    for k in 0..n
        invariant
            iv == insts_view(instructions@),
            n == instructions@.len(),
            forall|j: int| 0 <= j < n ==> (#[trigger] instructions@[j]).mask@.len() <= usize::BITS,
            address_space@ == spec_task_two(iv, k as int),
    {
        proof {
            assert(iv[k as int] == (instructions@[k as int].mask@, instructions@[k as int].assignments@));
        }
        let instruction = &instructions[k];
        let ones_mask = get_ones_mask(instruction.mask.as_str());
        let bits = collect_x_bits(instruction.mask.as_str());
        let x_masks = build_x_masks(&bits);
        if let Some(ones) = ones_mask {
            let an = instruction.assignments.len();
            for j in 0..an
                invariant
                    iv == insts_view(instructions@),
                    n == instructions@.len(),
                    k < n,
                    an == instruction.assignments@.len(),
                    instruction == &instructions[k as int],
                    iv[k as int] == (instruction.mask@, instruction.assignments@),
                    Some(ones) == spec_ones_mask(instruction.mask@),
                    x_masks@ == spec_x_masks(
                        x_bits_upto(instruction.mask@, instruction.mask@.len() as int),
                    ),
                    address_space@ == write_assignments(
                        spec_task_two(iv, k as int),
                        ones,
                        instruction.assignments@.take(j as int),
                        x_masks@,
                    ),
            {
                proof {
                    assert(instruction.assignments@.take(j + 1).drop_last()
                        =~= instruction.assignments@.take(j as int));
                    assert(instruction.assignments@.take(j + 1).last()
                        == instruction.assignments@[j as int]);
                }
                let (addr, value) = instruction.assignments[j];
                let address = addr | ones;
                let xn = x_masks.len();
                for q in 0..xn
                    invariant
                        xn == x_masks@.len(),
                        address == (addr | ones),
                        (addr, value) == instruction.assignments@[j as int],
                        address_space@ == write_xmasks(
                            write_assignments(
                                spec_task_two(iv, k as int),
                                ones,
                                instruction.assignments@.take(j as int),
                                x_masks@,
                            ),
                            address,
                            value,
                            x_masks@.take(q as int),
                        ),
                {
                    proof {
                        assert(x_masks@.take(q + 1).drop_last() =~= x_masks@.take(q as int));
                        assert(x_masks@.take(q + 1).last() == x_masks@[q as int]);
                    }
                    let (m0, m1) = x_masks[q];
                    address_space.insert((address | m0) & !m1, value);
                }
                proof {
                    assert(x_masks@.take(xn as int) =~= x_masks@);
                }
            }
            proof {
                assert(instruction.assignments@.take(an as int) =~= instruction.assignments@);
                assert(spec_task_two(iv, k + 1) == write_assignments(
                    spec_task_two(iv, k as int),
                    ones,
                    iv[k as int].1,
                    spec_x_masks(x_bits_upto(iv[k as int].0, iv[k as int].0.len() as int)),
                ));
            }
        } else {
            proof {
                assert(spec_task_two(iv, k + 1) == spec_task_two(iv, k as int));
            }
        }
    }
    address_space
}

} // verus!
