//! Recognition of sample lines in the statistics tool's output.
//!
//! A sample line holds, somewhere in it, six groups; each group is a run of
//! whitespace followed by a run of ASCII digits. At the very start of the
//! line the first group's whitespace may be empty, so a line may begin with
//! its first number. The first group's number (a node index) is ignored; the
//! other five are, in order: bytes written, bytes read, requests, queue
//! length and busy percent. The groups are searched for from the left, and
//! the leftmost place where all six follow one another is the one taken.
//! Whitespace is Unicode whitespace.
use vstd::prelude::*;

verus! {

/// Unicode whitespace (the `White_Space` property).
pub open spec fn is_space(c: char) -> bool {
    let v = c as u32;
    (0x09 <= v <= 0x0d) || v == 0x20 || v == 0x85 || v == 0xa0 || v == 0x1680 || (0x2000 <= v
        <= 0x200a) || v == 0x2028 || v == 0x2029 || v == 0x202f || v == 0x205f || v == 0x3000
}

/// An ASCII decimal digit.
pub open spec fn is_digit(c: char) -> bool {
    0x30 <= (c as u32) <= 0x39
}

/// The first position at or after `i` that does not hold whitespace.
pub open spec fn space_end(s: Seq<char>, i: int) -> int
    decreases s.len() - i,
{
    if 0 <= i < s.len() && is_space(s[i]) {
        space_end(s, i + 1)
    } else {
        i
    }
}

/// The first position at or after `i` that does not hold a digit.
pub open spec fn digit_end(s: Seq<char>, i: int) -> int
    decreases s.len() - i,
{
    if 0 <= i < s.len() && is_digit(s[i]) {
        digit_end(s, i + 1)
    } else {
        i
    }
}

/// The group that starts at `i`: whitespace from `i` on, then digits; the
/// span `(start, end)` of its digits.
pub open spec fn group_at(s: Seq<char>, i: int) -> Option<(int, int)> {
    if 0 <= i < s.len() && is_space(s[i]) {
        let j = space_end(s, i);
        if j < s.len() && is_digit(s[j]) {
            Some((j, digit_end(s, j)))
        } else {
            None
        }
    } else {
        None
    }
}

/// The first group of a chain that starts at `p`: as `group_at`, except that
/// at the start of the line its whitespace may be empty.
pub open spec fn lead_group_at(s: Seq<char>, p: int) -> Option<(int, int)> {
    if p == 0 {
        let j = space_end(s, 0);
        if j < s.len() && is_digit(s[j]) {
            Some((j, digit_end(s, j)))
        } else {
            None
        }
    } else {
        group_at(s, p)
    }
}

/// The `m`-th group (counting from 0) of a chain of groups that starts at `p`,
/// each group starting where the digits of the one before end.
pub open spec fn nth_group(s: Seq<char>, p: int, m: nat) -> Option<(int, int)>
    decreases m,
{
    if m == 0 {
        lead_group_at(s, p)
    } else {
        match nth_group(s, p, (m - 1) as nat) {
            Some(g) => group_at(s, g.1),
            None => None,
        }
    }
}

/// Six groups follow one another from `p` on.
pub open spec fn matches_at(s: Seq<char>, p: int) -> bool {
    nth_group(s, p, 5) is Some
}

/// The leftmost position at or after `p` where six groups follow one another.
pub open spec fn first_match_from(s: Seq<char>, p: int) -> Option<int>
    decreases s.len() - p,
{
    if 0 <= p < s.len() {
        if matches_at(s, p) {
            Some(p)
        } else {
            first_match_from(s, p + 1)
        }
    } else {
        None
    }
}

/// The number that a run of decimal digits denotes.
pub open spec fn decimal_value(d: Seq<char>) -> nat
    decreases d.len(),
{
    if d.len() == 0 {
        0
    } else {
        decimal_value(d.drop_last()) * 10 + ((d.last() as u32) - 0x30) as nat
    }
}

/// The number held by the `m`-th group of the chain that starts at `p`.
pub open spec fn group_value(s: Seq<char>, p: int, m: nat) -> nat {
    let g = nth_group(s, p, m)->0;
    decimal_value(s.subrange(g.0, g.1))
}

/// The five captured numbers of a line, in order, or `None` where the line
/// holds no sample.
pub open spec fn line_fields(s: Seq<char>) -> Option<Seq<nat>> {
    match first_match_from(s, 0) {
        Some(p) => Some(
            seq![
                group_value(s, p, 1),
                group_value(s, p, 2),
                group_value(s, p, 3),
                group_value(s, p, 4),
                group_value(s, p, 5),
            ],
        ),
        None => None,
    }
}

/// A sample: the five numbers of one sample line.
#[derive(Clone, Copy, Debug, PartialEq, Eq, Structural)]
pub struct ParsedSample {
    pub bytes_written: u64,
    pub bytes_read: u64,
    pub request_count: u64,
    pub queue_length: u64,
    pub busy_percent: u64,
}

impl ParsedSample {
    /// The five numbers, in the order in which a line holds them.
    pub open spec fn fields(self) -> Seq<nat> {
        seq![
            self.bytes_written as nat,
            self.bytes_read as nat,
            self.request_count as nat,
            self.queue_length as nat,
            self.busy_percent as nat,
        ]
    }
}

/// Why a line that holds a sample could not be read.
#[derive(Clone, Copy, Debug, PartialEq, Eq, Structural)]
pub enum ExtractError {
    /// A captured number does not fit in 64 bits.
    FieldOutOfRange,
}

/// Every number fits in 64 bits.
pub open spec fn fits_u64(f: Seq<nat>) -> bool {
    forall|i: int| 0 <= i < f.len() ==> f[i] <= u64::MAX
}

/// What `extract` returns for a line.
pub open spec fn extract_result(s: Seq<char>) -> Result<Option<ParsedSample>, ExtractError> {
    match line_fields(s) {
        None => Ok(None),
        Some(f) => if fits_u64(f) {
            Ok(
                Some(
                    ParsedSample {
                        bytes_written: f[0] as u64,
                        bytes_read: f[1] as u64,
                        request_count: f[2] as u64,
                        queue_length: f[3] as u64,
                        busy_percent: f[4] as u64,
                    },
                ),
            )
        } else {
            Err(ExtractError::FieldOutOfRange)
        },
    }
}

proof fn lemma_chain_broken(s: Seq<char>, p: int, m: nat, n: nat)
    requires
        nth_group(s, p, m) is None,
        m <= n,
    ensures
        nth_group(s, p, n) is None,
    decreases n - m,
{
    if m < n {
        lemma_chain_broken(s, p, m, (n - 1) as nat);
    }
}

proof fn lemma_decimal_prefix_le(d: Seq<char>, i: int)
    requires
        0 <= i <= d.len(),
        forall|k: int| 0 <= k < d.len() ==> is_digit(#[trigger] d[k]),
    ensures
        decimal_value(d.take(i)) <= decimal_value(d),
    decreases d.len(),
{
    if i < d.len() {
        let e = d.drop_last();
        assert(e.take(i) =~= d.take(i));
        lemma_decimal_prefix_le(e, i);
    } else {
        assert(d.take(i) =~= d);
    }
}

proof fn lemma_space_end_from(s: Seq<char>, i: int)
    requires
        0 <= i,
    ensures
        i <= space_end(s, i),
    decreases s.len() - i,
{
    if 0 <= i < s.len() && is_space(s[i]) {
        lemma_space_end_from(s, i + 1);
    }
}

/// Position `k` holds the first digit of a number: a digit with no digit
/// right before it.
pub open spec fn starts_number(s: Seq<char>, k: int) -> bool {
    0 <= k < s.len() && is_digit(s[k]) && (k == 0 || !is_digit(s[k - 1]))
}

/// How many numbers (maximal runs of digits) begin before position `n`.
pub open spec fn numbers_before(s: Seq<char>, n: int) -> nat
    decreases n,
{
    if n <= 0 {
        0
    } else {
        numbers_before(s, n - 1) + if starts_number(s, n - 1) {
            1nat
        } else {
            0nat
        }
    }
}

/// How many numbers (maximal runs of digits) `s` holds.
pub open spec fn number_count(s: Seq<char>) -> nat {
    numbers_before(s, s.len() as int)
}

proof fn lemma_numbers_before_grows(s: Seq<char>, a: int, b: int)
    requires
        a <= b,
    ensures
        numbers_before(s, a) <= numbers_before(s, b),
    decreases b - a,
{
    if a < b {
        lemma_numbers_before_grows(s, a, b - 1);
    }
}

proof fn lemma_space_end_last(s: Seq<char>, i: int)
    requires
        0 <= i,
        space_end(s, i) > i,
    ensures
        space_end(s, i) <= s.len(),
        is_space(s[space_end(s, i) - 1]),
    decreases s.len() - i,
{
    if 0 <= i < s.len() && is_space(s[i]) {
        lemma_space_end_from(s, i + 1);
        if space_end(s, i + 1) > i + 1 {
            lemma_space_end_last(s, i + 1);
        }
    }
}

proof fn lemma_digit_end_from(s: Seq<char>, i: int)
    requires
        0 <= i <= s.len(),
    ensures
        i <= digit_end(s, i) <= s.len(),
    decreases s.len() - i,
{
    if i < s.len() && is_digit(s[i]) {
        lemma_digit_end_from(s, i + 1);
    }
}

proof fn lemma_group_order(s: Seq<char>, i: int)
    requires
        group_at(s, i) is Some,
    ensures
        i < (group_at(s, i)->0).0 < (group_at(s, i)->0).1 <= s.len(),
        starts_number(s, (group_at(s, i)->0).0),
{
    lemma_space_end_from(s, i + 1);
    lemma_space_end_last(s, i);
    let j = (group_at(s, i)->0).0;
    lemma_digit_end_from(s, j + 1);
}

proof fn lemma_lead_group_order(s: Seq<char>, p: int)
    requires
        0 <= p,
        lead_group_at(s, p) is Some,
    ensures
        p <= (lead_group_at(s, p)->0).0 < (lead_group_at(s, p)->0).1 <= s.len(),
        starts_number(s, (lead_group_at(s, p)->0).0),
{
    if p == 0 {
        lemma_space_end_from(s, 0);
        let j = space_end(s, 0);
        if j > 0 {
            lemma_space_end_last(s, 0);
        }
        lemma_digit_end_from(s, j + 1);
    } else {
        lemma_group_order(s, p);
    }
}

/// The chain's first `m + 1` groups each begin a number before the end of
/// group `m`.
proof fn lemma_chain_numbers(s: Seq<char>, p: int, m: nat)
    requires
        0 <= p,
        nth_group(s, p, m) is Some,
    ensures
        p < (nth_group(s, p, m)->0).1 <= s.len(),
        numbers_before(s, (nth_group(s, p, m)->0).1) >= m + 1,
    decreases m,
{
    if m == 0 {
        lemma_lead_group_order(s, p);
        let j = (lead_group_at(s, p)->0).0;
        let k = (lead_group_at(s, p)->0).1;
        lemma_numbers_before_grows(s, j + 1, k);
    } else {
        let prev = (m - 1) as nat;
        lemma_chain_numbers(s, p, prev);
        let e = (nth_group(s, p, prev)->0).1;
        lemma_group_order(s, e);
        let j = (group_at(s, e)->0).0;
        let k = (group_at(s, e)->0).1;
        lemma_numbers_before_grows(s, e, j);
        lemma_numbers_before_grows(s, j + 1, k);
    }
}

proof fn lemma_first_match_matches(s: Seq<char>, p: int)
    requires
        first_match_from(s, p) is Some,
    ensures
        0 <= first_match_from(s, p)->0,
        matches_at(s, first_match_from(s, p)->0),
    decreases s.len() - p,
{
    if 0 <= p < s.len() && !matches_at(s, p) {
        lemma_first_match_matches(s, p + 1);
    }
}

/// A line with fewer than six numbers holds no sample: so neither does a
/// blank line, nor a header or a separator without digits.
pub proof fn lemma_few_numbers_no_sample(s: Seq<char>)
    requires
        number_count(s) < 6,
    ensures
        line_fields(s) is None,
{
    if first_match_from(s, 0) is Some {
        lemma_first_match_matches(s, 0);
        let p = first_match_from(s, 0)->0;
        lemma_chain_numbers(s, p, 5);
        let e = (nth_group(s, p, 5)->0).1;
        lemma_numbers_before_grows(s, e, s.len() as int);
    }
}

/// Every character of `s` in `[a, b)` is whitespace.
pub open spec fn all_space(s: Seq<char>, a: int, b: int) -> bool {
    forall|k: int| a <= k < b ==> is_space(#[trigger] s[k])
}

/// Every character of `s` in `[a, b)` is a digit.
pub open spec fn all_digit(s: Seq<char>, a: int, b: int) -> bool {
    forall|k: int| a <= k < b ==> is_digit(#[trigger] s[k])
}

/// `s` begins with six groups: group `i` is the whitespace run `[sp[i],
/// dg[i])` followed by the digit run `[dg[i], sp[i + 1])`; only the first
/// whitespace run may be empty, and the last digit run ends the line or is
/// followed by a character that is no digit.
pub open spec fn six_groups(s: Seq<char>, sp: Seq<int>, dg: Seq<int>) -> bool {
    &&& sp.len() == 7
    &&& dg.len() == 6
    &&& sp[0] == 0
    &&& sp[6] <= s.len()
    &&& forall|i: int|
        0 <= i < 6 ==> {
            &&& sp[i] <= #[trigger] dg[i] < sp[i + 1]
            &&& i > 0 ==> sp[i] < dg[i]
            &&& all_space(s, sp[i], dg[i])
            &&& all_digit(s, dg[i], sp[i + 1])
        }
    &&& sp[6] < s.len() ==> !is_digit(s[sp[6]])
}

proof fn lemma_space_run(s: Seq<char>, a: int, b: int)
    requires
        0 <= a <= b <= s.len(),
        all_space(s, a, b),
        b < s.len() ==> !is_space(s[b]),
    ensures
        space_end(s, a) == b,
    decreases b - a,
{
    if a < b {
        lemma_space_run(s, a + 1, b);
    }
}

proof fn lemma_digit_run(s: Seq<char>, a: int, b: int)
    requires
        0 <= a <= b <= s.len(),
        all_digit(s, a, b),
        b < s.len() ==> !is_digit(s[b]),
    ensures
        digit_end(s, a) == b,
    decreases b - a,
{
    if a < b {
        lemma_digit_run(s, a + 1, b);
    }
}

proof fn lemma_six_groups_bounds(s: Seq<char>, sp: Seq<int>, dg: Seq<int>)
    requires
        six_groups(s, sp, dg),
    ensures
        forall|i: int| 0 <= i <= 6 ==> 0 <= #[trigger] sp[i] <= s.len(),
{
    assert(sp[0] <= dg[0] < sp[1]);
    assert(sp[1] < dg[1] < sp[2]);
    assert(sp[2] < dg[2] < sp[3]);
    assert(sp[3] < dg[3] < sp[4]);
    assert(sp[4] < dg[4] < sp[5]);
    assert(sp[5] < dg[5] < sp[6]);
}

proof fn lemma_six_groups_chain(s: Seq<char>, sp: Seq<int>, dg: Seq<int>, m: nat)
    requires
        six_groups(s, sp, dg),
        m < 6,
    ensures
        nth_group(s, 0, m) == Some((dg[m as int], sp[m as int + 1])),
    decreases m,
{
    let i = m as int;
    lemma_six_groups_bounds(s, sp, dg);
    assert(sp[i] <= dg[i] < sp[i + 1]);
    assert(is_digit(s[dg[i]]));
    lemma_space_run(s, sp[i], dg[i]);
    if i < 5 {
        assert(sp[i + 1] < dg[i + 1]);
        assert(is_space(s[sp[i + 1]]));
    }
    lemma_digit_run(s, dg[i], sp[i + 1]);
    if i == 0 {
        assert(lead_group_at(s, 0) == Some((dg[0], sp[1])));
    } else {
        assert(sp[i] < dg[i]);
        assert(is_space(s[sp[i]]));
        assert(group_at(s, sp[i]) == Some((dg[i], sp[i + 1])));
    }
    if m > 0 {
        lemma_six_groups_chain(s, sp, dg, (m - 1) as nat);
    }
}

/// A line that begins with six groups yields the numbers of the last five
/// digit runs, in order, whatever the whitespace runs before and between
/// them hold and however long they are, the leading one empty or not.
pub proof fn lemma_six_groups_fields(s: Seq<char>, sp: Seq<int>, dg: Seq<int>)
    requires
        six_groups(s, sp, dg),
    ensures
        line_fields(s) == Some(
            seq![
                decimal_value(s.subrange(dg[1], sp[2])),
                decimal_value(s.subrange(dg[2], sp[3])),
                decimal_value(s.subrange(dg[3], sp[4])),
                decimal_value(s.subrange(dg[4], sp[5])),
                decimal_value(s.subrange(dg[5], sp[6])),
            ],
        ),
{
    lemma_six_groups_chain(s, sp, dg, 1);
    lemma_six_groups_chain(s, sp, dg, 2);
    lemma_six_groups_chain(s, sp, dg, 3);
    lemma_six_groups_chain(s, sp, dg, 4);
    lemma_six_groups_chain(s, sp, dg, 5);
    lemma_six_groups_chain(s, sp, dg, 0);
    assert(sp[0] <= dg[0] < sp[1]);
    assert(first_match_from(s, 0) == Some(0int));
}

/// The characters of `line`, in order.
pub fn chars_of(line: &str) -> (r: Vec<char>)
    ensures
        r@ == line@,
{
    let mut out: Vec<char> = Vec::new();
    for c in it: line.chars()
        invariant
            out@ == it.seq().take(it.index() as int),
    {
        out.push(c);
    }
    out
}

fn is_space_char(c: char) -> (r: bool)
    ensures
        r == is_space(c),
{
    let v = c as u32;
    (0x09 <= v && v <= 0x0d) || v == 0x20 || v == 0x85 || v == 0xa0 || v == 0x1680 || (0x2000
        <= v && v <= 0x200a) || v == 0x2028 || v == 0x2029 || v == 0x202f || v == 0x205f || v
        == 0x3000
}

fn is_digit_char(c: char) -> (r: bool)
    ensures
        r == is_digit(c),
{
    let v = c as u32;
    0x30 <= v && v <= 0x39
}

fn skip_spaces(s: &Vec<char>, i: usize) -> (r: usize)
    requires
        i <= s.len(),
    ensures
        r as int == space_end(s@, i as int),
        i <= r <= s.len(),
{
    let mut j = i;
    while j < s.len() && is_space_char(s[j])
        invariant
            i <= j <= s.len(),
            space_end(s@, i as int) == space_end(s@, j as int),
        decreases s.len() - j,
    {
        j = j + 1;
    }
    j
}

fn skip_digits(s: &Vec<char>, i: usize) -> (r: usize)
    requires
        i <= s.len(),
    ensures
        r as int == digit_end(s@, i as int),
        i <= r <= s.len(),
        forall|k: int| i <= k < r ==> is_digit(#[trigger] s@[k]),
        r < s.len() ==> !is_digit(s@[r as int]),
{
    let mut j = i;
    while j < s.len() && is_digit_char(s[j])
        invariant
            i <= j <= s.len(),
            digit_end(s@, i as int) == digit_end(s@, j as int),
            forall|k: int| i <= k < j ==> is_digit(#[trigger] s@[k]),
        decreases s.len() - j,
    {
        j = j + 1;
    }
    j
}

fn group_from(s: &Vec<char>, i: usize) -> (r: Option<(usize, usize)>)
    requires
        i <= s.len(),
    ensures
        match r {
            Some(g) => group_at(s@, i as int) == Some((g.0 as int, g.1 as int)) && g.0 < g.1
                <= s.len() && forall|k: int| g.0 <= k < g.1 ==> is_digit(#[trigger] s@[k]),
            None => group_at(s@, i as int) is None,
        },
{
    if i < s.len() && is_space_char(s[i]) {
        let j = skip_spaces(s, i);
        if j < s.len() && is_digit_char(s[j]) {
            let k = skip_digits(s, j);
            Some((j, k))
        } else {
            None
        }
    } else {
        None
    }
}

fn lead_group_from(s: &Vec<char>, i: usize) -> (r: Option<(usize, usize)>)
    requires
        i <= s.len(),
    ensures
        match r {
            Some(g) => lead_group_at(s@, i as int) == Some((g.0 as int, g.1 as int)) && g.0
                < g.1 <= s.len() && forall|k: int| g.0 <= k < g.1 ==> is_digit(#[trigger] s@[k]),
            None => lead_group_at(s@, i as int) is None,
        },
{
    if i == 0 {
        let j = skip_spaces(s, 0);
        if j < s.len() && is_digit_char(s[j]) {
            let k = skip_digits(s, j);
            Some((j, k))
        } else {
            None
        }
    } else {
        group_from(s, i)
    }
}

fn match_from(s: &Vec<char>, p: usize) -> (r: Option<Vec<(usize, usize)>>)
    requires
        p <= s.len(),
    ensures
        r is Some <==> matches_at(s@, p as int),
        r matches Some(g) ==> g.len() == 6 && forall|m: int|
            #![trigger g@[m]]
            0 <= m < 6 ==> {
                &&& nth_group(s@, p as int, m as nat) == Some(
                    (g@[m].0 as int, g@[m].1 as int),
                )
                &&& g@[m].0 < g@[m].1 <= s.len()
                &&& forall|k: int| g@[m].0 <= k < g@[m].1 ==> is_digit(#[trigger] s@[k])
            },
{
    let mut spans: Vec<(usize, usize)> = Vec::new();
    let mut cur = p;
    while spans.len() < 6
        invariant
            spans.len() <= 6,
            cur <= s.len(),
            spans.len() == 0 ==> cur == p,
            spans.len() > 0 ==> cur == spans@[spans.len() - 1].1,
            forall|m: int|
                #![trigger spans@[m]]
                0 <= m < spans.len() ==> {
                    &&& nth_group(s@, p as int, m as nat) == Some(
                        (spans@[m].0 as int, spans@[m].1 as int),
                    )
                    &&& spans@[m].0 < spans@[m].1 <= s.len()
                    &&& forall|k: int|
                        spans@[m].0 <= k < spans@[m].1 ==> is_digit(#[trigger] s@[k])
                },
        decreases 6 - spans.len(),
    {
        let ghost m = spans.len() as nat;
        let step = if spans.len() == 0 {
            lead_group_from(s, cur)
        } else {
            group_from(s, cur)
        };
        match step {
            Some(g) => {
                proof {
                    if m > 0 {
                        assert(nth_group(s@, p as int, (m - 1) as nat) == Some(
                            (spans@[m - 1].0 as int, spans@[m - 1].1 as int),
                        ));
                    }
                }
                spans.push(g);
                cur = g.1;
            },
            None => {
                proof {
                    if m > 0 {
                        assert(nth_group(s@, p as int, (m - 1) as nat) == Some(
                            (spans@[m - 1].0 as int, spans@[m - 1].1 as int),
                        ));
                    }
                    assert(nth_group(s@, p as int, m) is None);
                    lemma_chain_broken(s@, p as int, m, 5);
                }
                return None;
            },
        }
    }
    assert(nth_group(s@, p as int, 5) == Some((spans@[5].0 as int, spans@[5].1 as int)));
    Some(spans)
}

fn parse_decimal(s: &Vec<char>, j: usize, k: usize) -> (r: Option<u64>)
    requires
        j <= k <= s.len(),
        forall|i: int| j <= i < k ==> is_digit(#[trigger] s@[i]),
    ensures
        match r {
            Some(v) => v as nat == decimal_value(s@.subrange(j as int, k as int)),
            None => decimal_value(s@.subrange(j as int, k as int)) > u64::MAX,
        },
{
    let ghost whole = s@.subrange(j as int, k as int);
    let mut v: u64 = 0;
    let mut i = j;
    while i < k
        invariant
            j <= i <= k <= s.len(),
            whole == s@.subrange(j as int, k as int),
            forall|x: int| j <= x < k ==> is_digit(#[trigger] s@[x]),
            v as nat == decimal_value(s@.subrange(j as int, i as int)),
        decreases k - i,
    {
        let c = s[i];
        assert(is_digit(s@[i as int]));
        let d = (c as u32 - 0x30u32) as u64;
        let ghost next = s@.subrange(j as int, i + 1);
        assert(next.drop_last() =~= s@.subrange(j as int, i as int));
        assert(decimal_value(next) == v * 10 + d);
        if v > (u64::MAX - d) / 10 {
            proof {
                assert(v * 10 + d > u64::MAX) by (nonlinear_arith)
                    requires
                        v > (u64::MAX - d) / 10,
                        d <= 9,
                ;
                let n = (i as int) + 1 - (j as int);
                assert(whole.take(n) =~= next);
                assert forall|x: int| 0 <= x < whole.len() implies is_digit(#[trigger] whole[x]) by {
                    assert(whole[x] == s@[(j as int) + x]);
                }
                lemma_decimal_prefix_le(whole, n);
            }
            return None;
        }
        assert(v * 10 + d <= u64::MAX) by (nonlinear_arith)
            requires
                v <= (u64::MAX - d) / 10,
                d <= 9,
        ;
        v = v * 10 + d;
        i = i + 1;
    }
    Some(v)
}

/// Reads one line of the statistics tool's output: the sample it holds, or
/// `None` where it holds none (headers, blank lines, separators). A line that
/// holds a sample with a number beyond 64 bits gives `FieldOutOfRange`.
pub fn extract(line: &str) -> (r: Result<Option<ParsedSample>, ExtractError>)
    ensures
        r == extract_result(line@),
        r matches Ok(Some(smp)) ==> line_fields(line@) == Some(smp.fields()),
        line_fields(line@) is Some && fits_u64(line_fields(line@)->0) ==> (r matches Ok(
            Some(smp),
        ) && smp.fields() == line_fields(line@)->0),
        line_fields(line@) is None ==> r == Ok::<Option<ParsedSample>, ExtractError>(None),
{
    let s = chars_of(line);
    let mut p: usize = 0;
    while p < s.len()
        invariant
            p <= s.len(),
            s@ == line@,
            first_match_from(s@, 0) == first_match_from(s@, p as int),
        decreases s.len() - p,
    {
        match match_from(&s, p) {
            Some(g) => {
                assert(first_match_from(s@, p as int) == Some(p as int));
                let w = parse_decimal(&s, g[1].0, g[1].1);
                let rd = parse_decimal(&s, g[2].0, g[2].1);
                let rq = parse_decimal(&s, g[3].0, g[3].1);
                let q = parse_decimal(&s, g[4].0, g[4].1);
                let b = parse_decimal(&s, g[5].0, g[5].1);
                let ghost f = line_fields(s@)->0;
                proof {
                    assert(nth_group(s@, p as int, 1) == Some((g@[1].0 as int, g@[1].1 as int)));
                    assert(nth_group(s@, p as int, 2) == Some((g@[2].0 as int, g@[2].1 as int)));
                    assert(nth_group(s@, p as int, 3) == Some((g@[3].0 as int, g@[3].1 as int)));
                    assert(nth_group(s@, p as int, 4) == Some((g@[4].0 as int, g@[4].1 as int)));
                    assert(nth_group(s@, p as int, 5) == Some((g@[5].0 as int, g@[5].1 as int)));
                }
                match (w, rd, rq, q, b) {
                    (Some(w), Some(rd), Some(rq), Some(q), Some(b)) => {
                        let smp = ParsedSample {
                            bytes_written: w,
                            bytes_read: rd,
                            request_count: rq,
                            queue_length: q,
                            busy_percent: b,
                        };
                        assert(smp.fields() =~= f);
                        return Ok(Some(smp));
                    },
                    _ => {
                        assert(!fits_u64(f));
                        return Err(ExtractError::FieldOutOfRange);
                    },
                }
            },
            None => {
                p = p + 1;
            },
        }
    }
    Ok(None)
}

} // verus!
