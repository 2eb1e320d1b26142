//! Parsing of IPv6 address text (`2001:db8::1`) into its eight 16-bit groups.
use vstd::prelude::*;

verus! {

/// The value of a hexadecimal digit, or -1 for any other character.
pub open spec fn hex_digit_value(c: char) -> int {
    if '0' <= c && c <= '9' {
        c as int - '0' as int
    } else if 'a' <= c && c <= 'f' {
        c as int - 'a' as int + 10
    } else if 'A' <= c && c <= 'F' {
        c as int - 'A' as int + 10
    } else {
        -1
    }
}

pub open spec fn is_hex_digit(c: char) -> bool {
    hex_digit_value(c) >= 0
}

/// Number of consecutive hexadecimal digits of `s` starting at `i`, before `hi`.
pub open spec fn hex_run(s: Seq<char>, i: int, hi: int) -> nat
    decreases hi - i,
{
    if i < hi && is_hex_digit(s[i]) {
        1 + hex_run(s, i + 1, hi)
    } else {
        0
    }
}

/// The number written by the hexadecimal digits `s[i..j]`.
pub open spec fn hex_value(s: Seq<char>, i: int, j: int) -> nat
    decreases j - i,
{
    if j <= i {
        0
    } else {
        hex_value(s, i, j - 1) * 16 + hex_digit_value(s[j - 1]) as nat
    }
}

/// The groups of `s[i..hi]` read as `group (':' group)*`, where a group is one
/// to four hexadecimal digits; `None` when the text does not have that shape.
pub open spec fn groups_in(s: Seq<char>, i: int, hi: int) -> Option<Seq<u16>>
    decreases hi - i,
{
    let n = hex_run(s, i, hi);
    if n == 0 || n > 4 {
        None
    } else if i + n >= hi {
        Some(seq![hex_value(s, i, i + n) as u16])
    } else if s[i + n] == ':' {
        match groups_in(s, i + n + 1, hi) {
            Some(rest) => Some(seq![hex_value(s, i, i + n) as u16] + rest),
            None => None,
        }
    } else {
        None
    }
}

/// Like `groups_in`, where the empty text has no groups.
pub open spec fn part_groups(s: Seq<char>, lo: int, hi: int) -> Option<Seq<u16>> {
    if lo >= hi {
        Some(Seq::empty())
    } else {
        groups_in(s, lo, hi)
    }
}

/// Position of the first `::` of `s` at or after `i`.
pub open spec fn find_double_colon(s: Seq<char>, i: int) -> Option<int>
    decreases s.len() - i,
{
    if i < 0 || i + 1 >= s.len() {
        None
    } else if s[i] == ':' && s[i + 1] == ':' {
        Some(i)
    } else {
        find_double_colon(s, i + 1)
    }
}

/// The eight groups that an IPv6 address text denotes: either eight groups
/// separated by `:`, or groups before and after one `::` that stands for one
/// or more zero groups. Dotted IPv4 tails and zone suffixes are not accepted.
pub open spec fn ipv6_segments(s: Seq<char>) -> Option<Seq<u16>> {
    match find_double_colon(s, 0) {
        None => match groups_in(s, 0, s.len() as int) {
            Some(g) => if g.len() == 8 { Some(g) } else { None },
            None => None,
        },
        Some(k) => match (part_groups(s, 0, k), part_groups(s, k + 2, s.len() as int)) {
            (Some(h), Some(t)) => if h.len() <= 7 && t.len() <= 7 - h.len() {
                Some(h + Seq::new((8 - h.len() - t.len()) as nat, |j: int| 0u16) + t)
            } else {
                None
            },
            _ => None,
        },
    }
}

/// The value of one hexadecimal digit.
pub fn hex_digit(c: char) -> (r: Option<u32>)
    ensures
        match r {
            Some(v) => is_hex_digit(c) && v as int == hex_digit_value(c),
            None => !is_hex_digit(c),
        },
{
    if '0' <= c && c <= '9' {
        Some(c as u32 - '0' as u32)
    } else if 'a' <= c && c <= 'f' {
        Some(c as u32 - 'a' as u32 + 10)
    } else if 'A' <= c && c <= 'F' {
        Some(c as u32 - 'A' as u32 + 10)
    } else {
        None
    }
}

fn hex_run_at(s: &str, i: usize, hi: usize) -> (n: usize)
    requires
        i <= hi <= s@.len(),
    ensures
        n == hex_run(s@, i as int, hi as int),
        n <= hi - i,
    decreases hi - i,
{
    if i < hi && hex_digit(s.get_char(i)).is_some() {
        1 + hex_run_at(s, i + 1, hi)
    } else {
        0
    }
}

pub open spec fn pow16(n: nat) -> nat
    decreases n,
{
    if n == 0 {
        1
    } else {
        16 * pow16((n - 1) as nat)
    }
}

fn hex_value_at(s: &str, i: usize, j: usize) -> (v: u16)
    requires
        i <= j <= s@.len(),
        j - i <= 4,
        forall|k: int| i <= k < j ==> is_hex_digit(#[trigger] s@[k]),
    ensures
        v as int == hex_value(s@, i as int, j as int),
{
    let mut acc: u32 = 0;
    let mut k: usize = i;
    while k < j
        invariant
            i <= k <= j <= s@.len(),
            j - i <= 4,
            forall|m: int| i <= m < j ==> is_hex_digit(#[trigger] s@[m]),
            acc as int == hex_value(s@, i as int, k as int),
            acc < pow16((k - i) as nat),
            pow16((k - i) as nat) <= 65536,
        decreases j - k,
    {
        let c = s.get_char(k);
        let d = hex_digit(c).unwrap();
        assert(is_hex_digit(s@[k as int]));
        let ghost p = pow16((k - i) as nat);
        assert(pow16((k + 1 - i) as nat) == 16 * p);
        assert(acc * 16 + d < 16 * p) by (nonlinear_arith)
            requires acc < p, d < 16;
        assert(pow16(4) == 65536) by {
            reveal_with_fuel(pow16, 5);
        }
        assert(k + 1 - i <= 4);
        assert(pow16((k + 1 - i) as nat) <= 65536) by {
            lemma_pow16_mono((k + 1 - i) as nat, 4);
        }
        acc = acc * 16 + d;
        k = k + 1;
    }
    acc as u16
}

proof fn lemma_pow16_mono(a: nat, b: nat)
    requires
        a <= b,
    ensures
        pow16(a) <= pow16(b),
    decreases b,
{
    if a < b {
        lemma_pow16_mono(a, (b - 1) as nat);
    }
}

proof fn lemma_hex_run_digits(s: Seq<char>, i: int, hi: int)
    ensures
        forall|k: int| i <= k < i + hex_run(s, i, hi) ==> is_hex_digit(#[trigger] s[k]),
        i + hex_run(s, i, hi) <= hi || hex_run(s, i, hi) == 0,
    decreases hi - i,
{
    if i < hi && is_hex_digit(s[i]) {
        lemma_hex_run_digits(s, i + 1, hi);
    }
}

fn groups_at(s: &str, i: usize, hi: usize) -> (r: Option<Vec<u16>>)
    requires
        i <= hi <= s@.len(),
    ensures
        match r {
            Some(v) => groups_in(s@, i as int, hi as int) == Some(v@),
            None => groups_in(s@, i as int, hi as int) is None,
        },
    decreases hi - i,
{
    let n = hex_run_at(s, i, hi);
    proof {
        lemma_hex_run_digits(s@, i as int, hi as int);
    }
    if n == 0 || n > 4 {
        return None;
    }
    let v = hex_value_at(s, i, i + n);
    if i + n >= hi {
        let r = vec![v];
        assert(r@ =~= seq![v]);
        Some(r)
    } else if s.get_char(i + n) == ':' {
        match groups_at(s, i + n + 1, hi) {
            Some(rest) => {
                let mut r = rest;
                r.insert(0, v);
                assert(r@ =~= seq![v] + rest@);
                Some(r)
            },
            None => None,
        }
    } else {
        None
    }
}

fn part_groups_at(s: &str, lo: usize, hi: usize) -> (r: Option<Vec<u16>>)
    requires
        lo <= hi <= s@.len(),
    ensures
        match r {
            Some(v) => part_groups(s@, lo as int, hi as int) == Some(v@),
            None => part_groups(s@, lo as int, hi as int) is None,
        },
{
    if lo >= hi {
        Some(Vec::new())
    } else {
        groups_at(s, lo, hi)
    }
}

fn find_double_colon_at(s: &str, len: usize) -> (r: Option<usize>)
    requires
        len == s@.len(),
    ensures
        match r {
            Some(k) => find_double_colon(s@, 0) == Some(k as int) && k + 2 <= len,
            None => find_double_colon(s@, 0) is None,
        },
{
    let mut i: usize = 0;
    while i < len && len - i > 1
        invariant
            len == s@.len(),
            i <= len,
            find_double_colon(s@, 0) == find_double_colon(s@, i as int),
        decreases len - i,
    {
        if s.get_char(i) == ':' && s.get_char(i + 1) == ':' {
            return Some(i);
        }
        i = i + 1;
    }
    None
}

/// Parses IPv6 address text into its eight groups.
pub fn parse_ipv6(s: &str) -> (r: Option<Vec<u16>>)
    ensures
        match r {
            Some(v) => ipv6_segments(s@) == Some(v@) && v@.len() == 8,
            None => ipv6_segments(s@) is None,
        },
{
    let len = s.unicode_len();
    match find_double_colon_at(s, len) {
        None => match groups_at(s, 0, len) {
            Some(g) => if g.len() == 8 { Some(g) } else { None },
            None => None,
        },
        Some(k) => {
            let head = part_groups_at(s, 0, k);
            let tail = part_groups_at(s, k + 2, len);
            match (head, tail) {
                (Some(h), Some(t)) => {
                    if h.len() <= 7 && t.len() <= 7 - h.len() {
                        let zeros = 8 - h.len() - t.len();
                        let mut r = h;
                        let ghost hv = r@;
                        let mut z: usize = 0;
                        while z < zeros
                            invariant
                                z <= zeros,
                                r@ =~= hv + Seq::new(z as nat, |j: int| 0u16),
                            decreases zeros - z,
                        {
                            r.push(0);
                            z = z + 1;
                        }
                        let mut j: usize = 0;
                        let ghost rz = r@;
                        while j < t.len()
                            invariant
                                j <= t.len(),
                                r@ =~= rz + t@.subrange(0, j as int),
                            decreases t.len() - j,
                        {
                            r.push(t[j]);
                            j = j + 1;
                        }
                        assert(t@.subrange(0, t@.len() as int) =~= t@);
                        Some(r)
                    } else {
                        None
                    }
                },
                _ => None,
            }
        },
    }
}

} // verus!
