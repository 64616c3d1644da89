//! The joltage of a bank: two bytes picked from one line of digits.
use vstd::prelude::*;
use vstd::string::StringSliceAdditionalSpecFns;
use vstd::utf8::encode_utf8;

verus! {

/// The largest byte of `s`; 0 for the empty sequence.
pub open spec fn max_of(s: Seq<u8>) -> u8
    decreases s.len(),
{
    if s.len() == 0 {
        0
    } else {
        let m = max_of(s.drop_last());
        if s.last() > m {
            s.last()
        } else {
            m
        }
    }
}

/// The byte of the digit zero; a digit's value is its byte minus this one.
pub const DIGIT_ZERO: u8 = 48;

/// The smallest position at which `v` occurs in `s`.
pub open spec fn first_index(s: Seq<u8>, v: u8) -> int {
    choose|i: int| 0 <= i < s.len() && s[i] == v && forall|j: int| 0 <= j < i ==> s[j] != v
}

/// The largest byte of the line without its last byte.
pub open spec fn prefix_max(b: Seq<u8>) -> u8 {
    max_of(b.drop_last())
}

/// Where the prefix maximum first occurs in the whole line.
pub open spec fn first_max_index(b: Seq<u8>) -> int {
    first_index(b, prefix_max(b))
}

/// The largest byte strictly after the first occurrence of the prefix maximum.
pub open spec fn suffix_max(b: Seq<u8>) -> u8 {
    max_of(b.subrange(first_max_index(b) + 1, b.len() as int))
}

/// The joltage is defined on a line of two bytes or more whose two picked bytes are
/// not below the digit zero.
pub open spec fn joltage_defined(b: Seq<u8>) -> bool {
    &&& b.len() >= 2
    &&& prefix_max(b) >= DIGIT_ZERO
    &&& suffix_max(b) >= DIGIT_ZERO
}

/// The value of the two picked bytes read as a tens digit and a units digit.
pub open spec fn joltage_of(b: Seq<u8>) -> int {
    (prefix_max(b) - DIGIT_ZERO) * 10 + (suffix_max(b) - DIGIT_ZERO)
}

/// Every byte of the sequence is a decimal digit.
pub open spec fn all_digits(b: Seq<u8>) -> bool {
    forall|i: int| 0 <= i < b.len() ==> DIGIT_ZERO <= #[trigger] b[i] <= DIGIT_ZERO + 9
}

/// A nonempty sequence holds its maximum, and no byte of it is larger.
pub proof fn lemma_max_of(s: Seq<u8>)
    requires
        s.len() > 0,
    ensures
        s.contains(max_of(s)),
        forall|i: int| 0 <= i < s.len() ==> s[i] <= max_of(s),
    decreases s.len(),
{
    let m = max_of(s.drop_last());
    if s.len() > 1 {
        lemma_max_of(s.drop_last());
        let k = choose|k: int| 0 <= k < s.drop_last().len() && s.drop_last()[k] == m;
        if s.last() <= m {
            assert(s[k] == max_of(s));
        }
        assert forall|i: int| 0 <= i < s.len() implies s[i] <= max_of(s) by {
            if i < s.len() - 1 {
                assert(s[i] == s.drop_last()[i]);
            }
        }
    } else {
        assert(m == 0);
    }
    assert(s[s.len() - 1] == s.last());
}

/// The largest byte of `b[lo..hi]`.
fn max_in(b: &[u8], lo: usize, hi: usize) -> (r: u8)
    requires
        lo <= hi <= b@.len(),
    ensures
        r == max_of(b@.subrange(lo as int, hi as int)),
{
    let mut m: u8 = 0;
    let mut i: usize = lo;
    while i < hi
        invariant
            lo <= i <= hi <= b@.len(),
            m == max_of(b@.subrange(lo as int, i as int)),
        decreases hi - i,
    {
        assert(b@.subrange(lo as int, i + 1 as int).drop_last() =~= b@.subrange(lo as int, i as int));
        if b[i] > m {
            m = b[i];
        }
        i = i + 1;
    }
    m
}

/// A position that holds `v` with no `v` before it is the first index of `v`.
proof fn lemma_first_index(s: Seq<u8>, v: u8, i: int)
    requires
        0 <= i < s.len(),
        s[i] == v,
        forall|j: int| 0 <= j < i ==> s[j] != v,
    ensures
        first_index(s, v) == i,
{
    let k = first_index(s, v);
    assert(0 <= k < s.len() && s[k] == v && forall|j: int| 0 <= j < k ==> s[j] != v);
    if k < i {
        assert(s[k] != v);
    } else if i < k {
        assert(s[i] != v);
    }
}

/// A byte that occurs at `k` has a first index, at or before `k`.
proof fn lemma_first_index_exists(s: Seq<u8>, v: u8, k: int)
    requires
        0 <= k < s.len(),
        s[k] == v,
    ensures
        0 <= first_index(s, v) <= k,
        s[first_index(s, v)] == v,
        forall|j: int| 0 <= j < first_index(s, v) ==> s[j] != v,
    decreases k,
{
    if exists|j: int| 0 <= j < k && s[j] == v {
        let j = choose|j: int| 0 <= j < k && s[j] == v;
        lemma_first_index_exists(s, v, j);
    } else {
        lemma_first_index(s, v, k);
    }
}

/// The leftmost maximum of the line without its last byte lies in that prefix, and no
/// earlier position holds the same byte.
pub proof fn lemma_leftmost_max(b: Seq<u8>)
    requires
        b.len() >= 2,
    ensures
        0 <= first_max_index(b) < b.len() - 1,
        b[first_max_index(b)] == prefix_max(b),
        forall|j: int| 0 <= j < first_max_index(b) ==> b[j] != prefix_max(b),
        forall|j: int| 0 <= j < b.len() - 1 ==> b[j] <= prefix_max(b),
{
    let p = b.drop_last();
    let m = prefix_max(b);
    lemma_max_of(p);
    let k = choose|k: int| 0 <= k < p.len() && p[k] == m;
    assert(b[k] == p[k]);
    lemma_first_index_exists(b, m, k);
    assert forall|j: int| 0 <= j < b.len() - 1 implies b[j] <= m by {
        assert(b[j] == p[j]);
    }
}

/// The position of the first `v` in `b`, which is known to hold one before `end`.
fn first_position(b: &[u8], v: u8, end: usize) -> (r: usize)
    requires
        end <= b@.len(),
        exists|k: int| 0 <= k < end && b@[k] == v,
    ensures
        r < end,
        r == first_index(b@, v),
{
    let mut i: usize = 0;
    while b[i] != v
        invariant
            i < end <= b@.len(),
            exists|k: int| i <= k < end && b@[k] == v,
            forall|j: int| 0 <= j < i ==> b@[j] != v,
        decreases end - i,
    {
        i = i + 1;
    }
    proof {
        lemma_first_index(b@, v, i as int);
    }
    i
}

/// The joltage of one line, or `None` where it is not defined: a line shorter than two
/// bytes, or a picked byte below the digit zero.
pub fn try_bank_joltage(line: &str) -> (r: Option<u32>)
    ensures
        r.is_some() <==> joltage_defined(line.spec_bytes()),
        r matches Some(v) ==> v == joltage_of(line.spec_bytes()),
{
    let b = line.as_bytes();
    let n = b.len();
    if n < 2 {
        return None;
    }
    let max1 = max_in(b, 0, n - 1);
    proof {
        assert(b@.subrange(0, n - 1) =~= b@.drop_last());
        lemma_leftmost_max(b@);
    }
    let idx1 = first_position(b, max1, n - 1);
    let max2 = max_in(b, idx1 + 1, n);
    if max1 < DIGIT_ZERO || max2 < DIGIT_ZERO {
        return None;
    }
    let c1 = (max1 - DIGIT_ZERO) as u32;
    let c2 = (max2 - DIGIT_ZERO) as u32;
    Some(c1 * 10 + c2)
}

/// The joltage of one line: the largest byte of the line without its last byte, as a
/// tens digit, and the largest byte after its first occurrence, as a units digit.
pub fn bank_joltage(line: &str) -> (r: u32)
    requires
        joltage_defined(line.spec_bytes()),
    ensures
        r == joltage_of(line.spec_bytes()),
        all_digits(line.spec_bytes()) ==> r <= 99,
{
    let r = try_bank_joltage(line);
    proof {
        if all_digits(line.spec_bytes()) {
            lemma_digits_bound(line.spec_bytes());
        }
    }
    r.unwrap()
}

/// On a line of digits the joltage is at most 99.
pub proof fn lemma_digits_bound(b: Seq<u8>)
    requires
        b.len() >= 2,
        all_digits(b),
    ensures
        0 <= joltage_of(b) <= 99,
{
    lemma_leftmost_max(b);
    let i = first_max_index(b);
    let t = b.subrange(i + 1, b.len() as int);
    lemma_max_of(t);
    let k = choose|k: int| 0 <= k < t.len() && t[k] == suffix_max(b);
    assert(t[k] == b[i + 1 + k]);
}

/// The sum of the joltages of the lines, each line taken as its UTF-8 bytes.
pub open spec fn total_of(lines: Seq<Seq<char>>) -> int
    decreases lines.len(),
{
    if lines.len() == 0 {
        0
    } else {
        total_of(lines.drop_last()) + joltage_of(encode_utf8(lines.last()))
    }
}

/// Line `i` is the first line on which the joltage is not defined.
pub open spec fn first_undefined(lines: Seq<Seq<char>>, i: int) -> bool {
    &&& 0 <= i < lines.len()
    &&& !joltage_defined(encode_utf8(lines[i]))
    &&& forall|j: int| 0 <= j < i ==> joltage_defined(encode_utf8(#[trigger] lines[j]))
}

/// The total over `lines`, or the position of the first line whose joltage is not
/// defined.
pub fn total_joltage(lines: &Vec<String>) -> (r: Result<u128, usize>)
    ensures
        r matches Ok(t) ==> t == total_of(lines.deep_view()) && forall|j: int|
            0 <= j < lines@.len() ==> joltage_defined(encode_utf8(#[trigger] lines.deep_view()[j])),
        r matches Err(i) ==> first_undefined(lines.deep_view(), i as int),
{
    let ghost text = lines.deep_view();
    // no line adds more than (255 - 48) * 10 + (255 - 48) = 2277
    let mut total: u128 = 0;
    let mut i: usize = 0;
    while i < lines.len()
        invariant
            text == lines.deep_view(),
            text.len() == lines@.len(),
            i <= text.len(),
            total == total_of(text.subrange(0, i as int)),
            total <= 2277 * i,
            forall|j: int| 0 <= j < i ==> joltage_defined(encode_utf8(#[trigger] text[j])),
        decreases text.len() - i,
    {
        let line = lines[i].as_str();
        assert(text[i as int] == lines@[i as int]@);
        match try_bank_joltage(line) {
            Some(v) => {
                assert(text.subrange(0, i + 1 as int).drop_last() =~= text.subrange(0, i as int));
                assert(i < 0x1_0000_0000_0000_0000) by {
                    assert(usize::MAX <= u64::MAX);
                }
                total = total + v as u128;
                i = i + 1;
            },
            None => {
                return Err(i);
            },
        }
    }
    assert(text.subrange(0, i as int) =~= text);
    Ok(total)
}

/// The outcome of a run depends on the text of its lines alone: two runs on lines of
/// the same text have the same total and stop at the same undefined line.
pub proof fn lemma_total_deterministic(a: Seq<Seq<char>>, b: Seq<Seq<char>>)
    requires
        a.len() == b.len(),
        forall|i: int| 0 <= i < a.len() ==> a[i] =~= b[i],
    ensures
        total_of(a) == total_of(b),
        forall|i: int| first_undefined(a, i) <==> first_undefined(b, i),
{
    assert(a =~= b);
}

} // verus!
