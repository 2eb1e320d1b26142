//! Derivation of subnet prefixes: the WAN's own /64 prefix, and one distinct
//! /64 prefix for each LAN, numbered in name order.
use vstd::prelude::*;

use crate::text::{
    lemma_text_lt_asymmetric, lemma_text_lt_irreflexive, lemma_text_lt_total,
    lemma_text_lt_transitive, text_eq, text_less, text_lt,
};

verus! {

/// The entries of `s` are in strictly ascending order of their names.
pub open spec fn keys_sorted<T>(s: Seq<(String, T)>) -> bool {
    forall|i: int, j: int| 0 <= i < j < s.len() ==> text_lt(#[trigger] s[i].0@, #[trigger] s[j].0@)
}

/// Builds a prefix from its four groups.
pub fn make_prefix(a: u16, b: u16, c: u16, d: u16) -> (r: [u16; 4])
    ensures
        r@ == seq![a, b, c, d],
{
    let r = [a, b, c, d];
    assert(r@ =~= seq![a, b, c, d]);
    r
}

proof fn lemma_insert_sorted<T>(o: Seq<(String, T)>, p: int, e: (String, T))
    requires
        keys_sorted(o),
        0 <= p <= o.len(),
        forall|i: int| 0 <= i < p ==> text_lt(#[trigger] o[i].0@, e.0@),
        p < o.len() ==> text_lt(e.0@, o[p].0@),
    ensures
        keys_sorted(o.insert(p, e)),
{
    let n = o.insert(p, e);
    assert forall|i: int, j: int| 0 <= i < j < n.len() implies text_lt(#[trigger] n[i].0@, #[trigger] n[j].0@) by {
        if j == p {
            assert(n[i] == o[i]);
        } else if i == p {
            assert(n[j] == o[j - 1]);
            if j - 1 > p {
                lemma_text_lt_transitive(e.0@, o[p].0@, o[j - 1].0@);
            }
        } else if i < p && j > p {
            assert(n[i] == o[i]);
            assert(n[j] == o[j - 1]);
        } else if i > p {
            assert(n[i] == o[i - 1]);
            assert(n[j] == o[j - 1]);
        } else {
            assert(n[i] == o[i]);
            assert(n[j] == o[j]);
        }
    }
}

/// Adds `(key, val)` to entries kept in name order, at position `p`; an
/// entry of the same name is replaced.
pub fn insert_by_name<T>(out: &mut Vec<(String, T)>, key: String, val: T) -> (p: usize)
    requires
        keys_sorted(old(out)@),
    ensures
        keys_sorted(final(out)@),
        p <= old(out)@.len(),
        (p < old(out)@.len() && old(out)@[p as int].0@ == key@ && final(out)@ == old(out)@.update(
            p as int,
            (key, val),
        )) || final(out)@ == old(out)@.insert(p as int, (key, val)),
{
    let ghost o = out@;
    let mut p: usize = 0;
    while p < out.len() && text_less(out[p].0.as_str(), key.as_str())
        invariant
            out@ == o,
            p <= o.len(),
            forall|i: int| 0 <= i < p ==> text_lt(#[trigger] o[i].0@, key@),
        decreases o.len() - p,
    {
        p = p + 1;
    }
    if p < out.len() && text_eq(out[p].0.as_str(), key.as_str()) {
        out.set(p, (key, val));
        assert forall|i: int, j: int| 0 <= i < j < out@.len() implies text_lt(
            #[trigger] out@[i].0@,
            #[trigger] out@[j].0@,
        ) by {
            assert(o[i].0@ == out@[i].0@);
            assert(o[j].0@ == out@[j].0@);
        }
    } else {
        proof {
            if p < o.len() {
                lemma_text_lt_total(o[p as int].0@, key@);
            }
            lemma_insert_sorted(o, p as int, (key, val));
        }
        out.insert(p, (key, val));
    }
    p
}

/// The WAN's own prefix: the first four groups of its address, unchanged.
pub open spec fn baseline_of(segments: Seq<u16>) -> Seq<u16> {
    segments.subrange(0, 4)
}

/// The prefix of the LAN at position `i` (from zero) in name order: the
/// baseline with `i + 1` added to its fourth group, modulo 2^16.
pub open spec fn lan_prefix_of(baseline: Seq<u16>, i: int) -> Seq<u16> {
    seq![baseline[0], baseline[1], baseline[2], ((baseline[3] + i + 1) % 65536) as u16]
}

/// The names and prefixes of entries, as plain values.
pub open spec fn prefix_map_view(r: Seq<(String, [u16; 4])>) -> Seq<(Seq<char>, Seq<u16>)> {
    r.map_values(|e: (String, [u16; 4])| (e.0@, e.1@))
}

/// The texts of a sequence of names.
pub open spec fn names_view(names: Seq<String>) -> Seq<Seq<char>> {
    names.map_values(|n: String| n@)
}

/// `r` gives each of `names` once, in ascending name order, and the entry at
/// position `i` gets `lan_prefix_of(baseline, i)`.
pub open spec fn is_lan_prefix_map(
    baseline: Seq<u16>,
    names: Seq<Seq<char>>,
    r: Seq<(Seq<char>, Seq<u16>)>,
) -> bool {
    &&& forall|i: int, j: int| 0 <= i < j < r.len() ==> text_lt(#[trigger] r[i].0, #[trigger] r[j].0)
    &&& forall|i: int| 0 <= i < r.len() ==> (#[trigger] r[i]).1 == lan_prefix_of(baseline, i)
    &&& same_members(names, r.map_values(|e: (Seq<char>, Seq<u16>)| e.0))
}

/// The WAN's own prefix from the eight groups of its address.
pub fn derive_baseline(segments: &Vec<u16>) -> (r: [u16; 4])
    requires
        segments@.len() == 8,
    ensures
        r@ == baseline_of(segments@),
{
    let r = make_prefix(segments[0], segments[1], segments[2], segments[3]);
    assert(r@ =~= baseline_of(segments@));
    r
}

/// The prefix at position `i` in name order.
pub fn lan_prefix(baseline: [u16; 4], i: usize) -> (r: [u16; 4])
    ensures
        r@ == lan_prefix_of(baseline@, i as int),
{
    let step = ((i % 65536) as u16).wrapping_add(1);
    let d = baseline[3].wrapping_add(step);
    assert(d == ((baseline@[3] + i + 1) % 65536) as u16) by (nonlinear_arith)
        requires
            step == ((i % 65536) + 1) % 65536,
            d == (baseline@[3] + step) % 65536,
            baseline@[3] < 65536;
    make_prefix(baseline[0], baseline[1], baseline[2], d)
}

/// The names of entries, as plain texts.
pub open spec fn keys_view<T>(s: Seq<(String, T)>) -> Seq<Seq<char>> {
    s.map_values(|e: (String, T)| e.0@)
}

/// `a` and `b` hold the same texts.
pub open spec fn same_members(a: Seq<Seq<char>>, b: Seq<Seq<char>>) -> bool {
    &&& forall|k: int| 0 <= k < a.len() ==> b.contains(#[trigger] a[k])
    &&& forall|i: int| 0 <= i < b.len() ==> a.contains(#[trigger] b[i])
}

proof fn lemma_members_insert(before: Seq<Seq<char>>, after: Seq<Seq<char>>, p: int, x: Seq<char>, pre: Seq<Seq<char>>)
    requires
        0 <= p <= before.len(),
        after == before.insert(p, x),
        same_members(pre, before),
    ensures
        same_members(pre.push(x), after),
{
    let q = pre.push(x);
    assert forall|k: int| 0 <= k < q.len() implies after.contains(#[trigger] q[k]) by {
        if k == pre.len() {
            assert(after[p] == x);
        } else {
            assert(q[k] == pre[k]);
            let i = choose|i: int| 0 <= i < before.len() && before[i] == pre[k];
            if i < p {
                assert(after[i] == before[i]);
            } else {
                assert(after[i + 1] == before[i]);
            }
        }
    }
    assert forall|i: int| 0 <= i < after.len() implies q.contains(#[trigger] after[i]) by {
        if i == p {
            assert(q[pre.len() as int] == x);
        } else {
            let b = if i < p { before[i] } else { before[i - 1] };
            assert(after[i] == b);
            assert(pre.contains(b));
            let k = choose|k: int| 0 <= k < pre.len() && pre[k] == b;
            assert(q[k] == b);
        }
    }
}

proof fn lemma_members_replace(before: Seq<Seq<char>>, after: Seq<Seq<char>>, p: int, x: Seq<char>, pre: Seq<Seq<char>>)
    requires
        0 <= p < before.len(),
        before[p] == x,
        after == before,
        same_members(pre, before),
    ensures
        same_members(pre.push(x), after),
{
    let q = pre.push(x);
    assert forall|k: int| 0 <= k < q.len() implies after.contains(#[trigger] q[k]) by {
        if k == pre.len() {
            assert(after[p] == x);
        } else {
            assert(q[k] == pre[k]);
        }
    }
    assert forall|i: int| 0 <= i < after.len() implies q.contains(#[trigger] after[i]) by {
        let k = choose|k: int| 0 <= k < pre.len() && pre[k] == after[i];
        assert(q[k] == after[i]);
    }
}

/// After `insert_by_name` has added `entry` at `p`, the names are those
/// before it and the entry's.
pub proof fn lemma_entry_added<T>(before: Seq<(String, T)>, after: Seq<(String, T)>, p: int, entry: (String, T), pre: Seq<Seq<char>>)
    requires
        0 <= p <= before.len(),
        (p < before.len() && before[p].0@ == entry.0@ && after == before.update(p, entry))
            || after == before.insert(p, entry),
        same_members(pre, keys_view(before)),
    ensures
        same_members(pre.push(entry.0@), keys_view(after)),
        after.len() <= before.len() + 1,
        forall|i: int| 0 <= i < after.len() ==> (#[trigger] after[i]) == entry || before.contains(after[i]),
{
    if p < before.len() && before[p].0@ == entry.0@ && after == before.update(p, entry) {
        assert(keys_view(after) =~= keys_view(before));
        lemma_members_replace(keys_view(before), keys_view(after), p, entry.0@, pre);
        assert forall|i: int| 0 <= i < after.len() implies (#[trigger] after[i]) == entry || before.contains(after[i]) by {
            if i != p {
                assert(after[i] == before[i]);
            }
        }
    } else {
        assert(keys_view(after) =~= keys_view(before).insert(p, entry.0@));
        lemma_members_insert(keys_view(before), keys_view(after), p, entry.0@, pre);
        assert forall|i: int| 0 <= i < after.len() implies (#[trigger] after[i]) == entry || before.contains(after[i]) by {
            if i < p {
                assert(after[i] == before[i]);
            } else if i > p {
                assert(after[i] == before[i - 1]);
            }
        }
    }
}

/// A prefix for each LAN name: names are taken in ascending order, and the
/// i-th (from one) gets the baseline with `i` added to its fourth group.
pub fn derive_lan_prefixes(baseline: [u16; 4], lan_names: Vec<String>) -> (r: Vec<(String, [u16; 4])>)
    ensures
        is_lan_prefix_map(baseline@, names_view(lan_names@), prefix_map_view(r@)),
{
    let ghost names = names_view(lan_names@);
    let ghost orig = lan_names@;
    let mut sorted: Vec<(String, [u16; 4])> = Vec::new();
    let mut rest = lan_names;
    assert(names.subrange(0, 0) =~= Seq::<Seq<char>>::empty());
    assert(keys_view(sorted@) =~= Seq::<Seq<char>>::empty());
    while rest.len() > 0
        invariant
            rest@.len() <= orig.len(),
            names == names_view(orig),
            rest@ == orig.subrange(orig.len() - rest@.len(), orig.len() as int),
            keys_sorted(sorted@),
            same_members(names.subrange(0, orig.len() - rest@.len()), keys_view(sorted@)),
        decreases rest@.len(),
    {
        let ghost done = orig.len() - rest@.len();
        let ghost before = sorted@;
        let name = rest.remove(0);
        assert(name == orig[done]);
        let p = insert_by_name(&mut sorted, name, baseline);
        assert(rest@ =~= orig.subrange(done + 1, orig.len() as int));
        assert(names.subrange(0, done + 1) =~= names.subrange(0, done).push(names[done]));
        proof {
            if p < before.len() && before[p as int].0@ == names[done] && sorted@ == before.update(p as int, (orig[done], baseline)) {
                assert(keys_view(sorted@) =~= keys_view(before));
                lemma_members_replace(keys_view(before), keys_view(sorted@), p as int, names[done], names.subrange(0, done));
            } else {
                assert(keys_view(sorted@) =~= keys_view(before).insert(p as int, names[done]));
                lemma_members_insert(keys_view(before), keys_view(sorted@), p as int, names[done], names.subrange(0, done));
            }
        }
    }
    assert(names.subrange(0, orig.len() as int) =~= names);
    let ghost keys = sorted@;
    let mut i: usize = 0;
    while i < sorted.len()
        invariant
            sorted@.len() == keys.len(),
            i <= keys.len(),
            forall|j: int| 0 <= j < keys.len() ==> (#[trigger] sorted@[j]).0 == keys[j].0,
            forall|j: int| 0 <= j < i ==> (#[trigger] sorted@[j]).1@ == lan_prefix_of(baseline@, j),
        decreases keys.len() - i,
    {
        let p = lan_prefix(baseline, i);
        sorted[i].1 = p;
        i = i + 1;
    }
    let ghost rv = prefix_map_view(sorted@);
    assert forall|i: int, j: int| 0 <= i < j < rv.len() implies text_lt(#[trigger] rv[i].0, #[trigger] rv[j].0) by {
        assert(rv[i].0 == keys[i].0@);
        assert(rv[j].0 == keys[j].0@);
    }
    assert forall|i: int| 0 <= i < rv.len() implies (#[trigger] rv[i]).1 == lan_prefix_of(baseline@, i) by {
        assert(rv[i].1 == sorted@[i].1@);
    }
    assert(keys_view(keys) =~= rv.map_values(|e: (Seq<char>, Seq<u16>)| e.0));
    sorted
}

/// The lowercase hexadecimal digits.
pub open spec fn hex_digits() -> Seq<char> {
    seq!['0', '1', '2', '3', '4', '5', '6', '7', '8', '9', 'a', 'b', 'c', 'd', 'e', 'f']
}

/// `v` in lowercase hexadecimal, without leading zeros.
pub open spec fn hex_text(v: nat) -> Seq<char>
    decreases v,
{
    if v < 16 {
        seq![hex_digits()[v as int]]
    } else {
        hex_text(v / 16).push(hex_digits()[(v % 16) as int])
    }
}

/// A prefix written as four hexadecimal groups joined by `:`.
pub open spec fn prefix_text(p: Seq<u16>) -> Seq<char> {
    hex_text(p[0] as nat) + seq![':'] + hex_text(p[1] as nat) + seq![':'] + hex_text(p[2] as nat) + seq![':']
        + hex_text(p[3] as nat)
}

fn push_hex(out: &mut String, v: u16)
    ensures
        final(out)@ == old(out)@ + hex_text(v as nat),
    decreases v,
{
    if v >= 16 {
        push_hex(out, v / 16);
    }
    let d = (v % 16) as usize;
    let digits = "0123456789abcdef";
    proof {
        reveal_strlit("0123456789abcdef");
        assert(digits@ =~= hex_digits());
    }
    let one = digits.substring_char(d, d + 1);
    assert(one@ =~= seq![hex_digits()[d as int]]);
    let ghost before = out@;
    out.append(one);
    proof {
        if v >= 16 {
            assert(hex_text(v as nat) == hex_text((v / 16) as nat).push(hex_digits()[d as int]));
        }
    }
    assert(out@ =~= old(out)@ + hex_text(v as nat));
}

/// Writes a prefix as four hexadecimal groups joined by `:` (`2001:db8:1:1`).
pub fn format_prefix(p: [u16; 4]) -> (r: String)
    ensures
        r@ == prefix_text(p@),
{
    let mut r = String::new();
    proof {
        reveal_strlit(":");
        assert(":"@ =~= seq![':']);
    }
    push_hex(&mut r, p[0]);
    r.append(":");
    push_hex(&mut r, p[1]);
    r.append(":");
    push_hex(&mut r, p[2]);
    r.append(":");
    push_hex(&mut r, p[3]);
    assert(r@ =~= prefix_text(p@));
    r
}

/// The texts of `s` are in strictly ascending order.
pub open spec fn texts_sorted(s: Seq<Seq<char>>) -> bool {
    forall|i: int, j: int| 0 <= i < j < s.len() ==> text_lt(#[trigger] s[i], #[trigger] s[j])
}

pub proof fn lemma_sorted_agree(a: Seq<Seq<char>>, b: Seq<Seq<char>>, d: int)
    requires
        texts_sorted(a),
        texts_sorted(b),
        same_members(a, b),
        0 <= d <= a.len(),
        d <= b.len(),
        forall|i: int| 0 <= i < d ==> a[i] == b[i],
    ensures
        a == b,
    decreases a.len() + b.len() - 2 * d,
{
    if d < a.len() && d < b.len() {
        if a[d] != b[d] {
            lemma_text_lt_total(a[d], b[d]);
            if text_lt(a[d], b[d]) {
                let m = choose|m: int| 0 <= m < b.len() && b[m] == a[d];
                if m < d {
                    assert(text_lt(a[m], a[d]));
                    lemma_text_lt_irreflexive(a[d]);
                } else {
                    assert(m > d);
                    assert(text_lt(b[d], b[m]));
                    lemma_text_lt_asymmetric(a[d], b[d]);
                }
            } else {
                let m = choose|m: int| 0 <= m < a.len() && a[m] == b[d];
                if m < d {
                    assert(text_lt(b[m], b[d]));
                    lemma_text_lt_irreflexive(b[d]);
                } else {
                    assert(m > d);
                    assert(text_lt(a[d], a[m]));
                    lemma_text_lt_asymmetric(a[d], b[d]);
                }
            }
        }
        lemma_sorted_agree(a, b, d + 1);
    } else if d < a.len() {
        let m = choose|m: int| 0 <= m < b.len() && b[m] == a[d];
        assert(a[m] == b[m]);
        assert(text_lt(a[m], a[d]));
        lemma_text_lt_irreflexive(a[d]);
    } else if d < b.len() {
        let m = choose|m: int| 0 <= m < a.len() && a[m] == b[d];
        assert(a[m] == b[m]);
        assert(text_lt(b[m], b[d]));
        lemma_text_lt_irreflexive(b[d]);
    } else {
        assert(a =~= b);
    }
}

/// LAN prefix derivation is deterministic: for the same baseline and the
/// same LAN names, every mapping that meets its description is the same
/// mapping.
pub proof fn law_lan_prefixes_deterministic(
    baseline: Seq<u16>,
    names: Seq<Seq<char>>,
    r1: Seq<(Seq<char>, Seq<u16>)>,
    r2: Seq<(Seq<char>, Seq<u16>)>,
)
    requires
        is_lan_prefix_map(baseline, names, r1),
        is_lan_prefix_map(baseline, names, r2),
    ensures
        r1 == r2,
{
    let k1 = r1.map_values(|e: (Seq<char>, Seq<u16>)| e.0);
    let k2 = r2.map_values(|e: (Seq<char>, Seq<u16>)| e.0);
    assert forall|i: int, j: int| 0 <= i < j < k1.len() implies text_lt(#[trigger] k1[i], #[trigger] k1[j]) by {
        assert(text_lt(r1[i].0, r1[j].0));
    }
    assert forall|i: int, j: int| 0 <= i < j < k2.len() implies text_lt(#[trigger] k2[i], #[trigger] k2[j]) by {
        assert(text_lt(r2[i].0, r2[j].0));
    }
    assert forall|k: int| 0 <= k < k1.len() implies k2.contains(#[trigger] k1[k]) by {
        let n = choose|n: int| 0 <= n < names.len() && names[n] == k1[k];
        assert(k2.contains(names[n]));
    }
    assert forall|k: int| 0 <= k < k2.len() implies k1.contains(#[trigger] k2[k]) by {
        let n = choose|n: int| 0 <= n < names.len() && names[n] == k2[k];
        assert(k1.contains(names[n]));
    }
    lemma_sorted_agree(k1, k2, 0);
    assert forall|i: int| 0 <= i < r1.len() implies r1[i] == r2[i] by {
        assert(k1[i] == k2[i]);
    }
    assert(r1 =~= r2);
}

/// LAN prefix derivation is injective: while the LANs fit the largest
/// budget (2^16 - 1), two different positions of the mapping have different
/// names and different fourth groups, and each differs from the baseline's
/// own fourth group; names come in ascending order.
pub proof fn law_lan_prefixes_injective(baseline: Seq<u16>, names: Seq<Seq<char>>, r: Seq<(Seq<char>, Seq<u16>)>, i: int, j: int)
    requires
        baseline.len() == 4,
        is_lan_prefix_map(baseline, names, r),
        r.len() <= 65535,
        0 <= i < j < r.len(),
    ensures
        text_lt(r[i].0, r[j].0),
        r[i].0 != r[j].0,
        r[i].1[3] != r[j].1[3],
        r[i].1[3] != baseline[3],
        r[i].1.subrange(0, 3) == baseline.subrange(0, 3),
{
    lemma_text_lt_irreflexive(r[i].0);
    assert(r[i].1 == lan_prefix_of(baseline, i));
    assert(r[j].1 == lan_prefix_of(baseline, j));
    assert(r[i].1.subrange(0, 3) =~= baseline.subrange(0, 3));
}

} // verus!
