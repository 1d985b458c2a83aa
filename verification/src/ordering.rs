//! Lexicographic order on strings and an insertion sort that uses it.

use vstd::prelude::*;

verus! {

/// Strict lexicographic order on character sequences, comparing code points;
/// a proper prefix comes first.
pub open spec fn chars_lt(a: Seq<char>, b: Seq<char>) -> bool
    decreases a.len(),
{
    if b.len() == 0 {
        false
    } else if a.len() == 0 {
        true
    } else if (a[0] as int) < (b[0] as int) {
        true
    } else if a[0] == b[0] {
        chars_lt(a.drop_first(), b.drop_first())
    } else {
        false
    }
}

/// No element of `s` is strictly smaller than an element before it.
pub open spec fn chars_sorted(s: Seq<Seq<char>>) -> bool {
    forall|i: int, j: int| 0 <= i < j < s.len() ==> !chars_lt(#[trigger] s[j], #[trigger] s[i])
}

/// The order is irreflexive and asymmetric.
pub proof fn lemma_chars_lt_asymmetric(a: Seq<char>, b: Seq<char>)
    ensures
        !(chars_lt(a, b) && chars_lt(b, a)),
        !chars_lt(a, a),
    decreases a.len(),
{
    if a.len() > 0 && b.len() > 0 && a[0] == b[0] {
        lemma_chars_lt_asymmetric(a.drop_first(), b.drop_first());
    }
    if a.len() > 0 {
        lemma_chars_lt_asymmetric(a.drop_first(), a.drop_first());
    }
}

/// The order is transitive.
pub proof fn lemma_chars_lt_transitive(a: Seq<char>, b: Seq<char>, c: Seq<char>)
    requires
        chars_lt(a, b),
        chars_lt(b, c),
    ensures
        chars_lt(a, c),
    decreases a.len(),
{
    if a.len() > 0 && b.len() > 0 && c.len() > 0 && a[0] == b[0] && b[0] == c[0] {
        lemma_chars_lt_transitive(a.drop_first(), b.drop_first(), c.drop_first());
    }
}

/// Two distinct sequences are ordered one way or the other.
pub proof fn lemma_chars_lt_total(a: Seq<char>, b: Seq<char>)
    requires
        a != b,
    ensures
        chars_lt(a, b) || chars_lt(b, a),
    decreases a.len(),
{
    if a.len() > 0 && b.len() > 0 && a[0] == b[0] {
        if a.drop_first() == b.drop_first() {
            assert(a =~= seq![a[0]] + a.drop_first());
            assert(b =~= seq![b[0]] + b.drop_first());
        }
        lemma_chars_lt_total(a.drop_first(), b.drop_first());
    } else if a.len() > 0 && b.len() > 0 {
        assert((a[0] as int) != (b[0] as int));
    } else if a.len() == 0 && b.len() == 0 {
        assert(a =~= b);
    }
}

/// Whether `a` comes strictly before `b` in the lexicographic order of code
/// points (the order of `<` on string slices).
pub(crate) fn str_lt(a: &str, b: &str) -> (r: bool)
    ensures
        r == chars_lt(a@, b@),
{
    let n = a.unicode_len();
    let m = b.unicode_len();
    let mut i: usize = 0;
    assert(a@.skip(0) =~= a@ && b@.skip(0) =~= b@);
    while i < n && i < m
        invariant
            n == a@.len(),
            m == b@.len(),
            i <= n,
            i <= m,
            chars_lt(a@, b@) == chars_lt(a@.skip(i as int), b@.skip(i as int)),
        decreases n - i,
    {
        let x = a.get_char(i);
        let y = b.get_char(i);
        assert(a@.skip(i as int)[0] == x && b@.skip(i as int)[0] == y);
        if (x as u32) < (y as u32) {
            return true;
        }
        if x != y {
            return false;
        }
        assert(a@.skip(i as int).drop_first() =~= a@.skip(i + 1));
        assert(b@.skip(i as int).drop_first() =~= b@.skip(i + 1));
        i += 1;
    }
    assert(a@.skip(i as int).len() == n - i && b@.skip(i as int).len() == m - i);
    i < m
}

/// Sorts strings into ascending lexicographic order.
pub fn sort_strings(v: Vec<String>) -> (r: Vec<String>)
    ensures
        chars_sorted(r@.map_values(|s: String| s@)),
        r@.map_values(|s: String| s@).to_multiset() == v@.map_values(|s: String| s@).to_multiset(),
        r@.len() == v@.len(),
{
    let ghost input = v@.map_values(|s: String| s@);
    let mut out: Vec<String> = Vec::new();
    let mut i: usize = 0;
    let n = v.len();
    let mut v = v;
    proof {
        assert(out@.map_values(|s: String| s@) =~= input.subrange(0, 0));
    }
    while i < n
        invariant
            n == v@.len(),
            input == v@.map_values(|s: String| s@),
            i <= n,
            out@.len() == i,
            chars_sorted(out@.map_values(|s: String| s@)),
            out@.map_values(|s: String| s@).to_multiset() == input.subrange(0, i as int).to_multiset(),
        decreases n - i,
    {
        let x = v[i].clone();
        assert(x@ == input[i as int]);
        let ghost before = out@.map_values(|s: String| s@);
        // Find the first element strictly greater than x.
        let mut p: usize = 0;
        loop
            invariant
                p <= out@.len(),
                before == out@.map_values(|s: String| s@),
                x@ == input[i as int],
                forall|k: int| 0 <= k < p ==> !chars_lt(x@, #[trigger] before[k]),
            ensures
                p <= out@.len(),
                p == out@.len() || chars_lt(x@, before[p as int]),
                forall|k: int| 0 <= k < p ==> !chars_lt(x@, #[trigger] before[k]),
            decreases out@.len() - p,
        {
            if p == out.len() {
                break;
            }
            if str_lt(x.as_str(), out[p].as_str()) {
                break;
            }
            p += 1;
        }
        let ghost xv = x@;
        out.insert(p, x);
        proof {
            let after = out@.map_values(|s: String| s@);
            assert(after =~= before.insert(p as int, xv));
            assert forall|a: int, b: int| 0 <= a < b < after.len() implies !chars_lt(#[trigger] after[b], #[trigger] after[a]) by {
                if a < p && b < p {
                    assert(after[a] == before[a] && after[b] == before[b]);
                } else if a < p && b == p {
                    assert(after[b] == xv && after[a] == before[a]);
                    lemma_chars_lt_asymmetric(xv, before[a]);
                    lemma_chars_lt_total_or_eq(xv, before[a]);
                } else if a < p && b > p {
                    assert(after[a] == before[a] && after[b] == before[b - 1]);
                } else if a == p {
                    assert(after[a] == xv && after[b] == before[b - 1]);
                    if chars_lt(before[b - 1], xv) {
                        if b - 1 == p {
                            lemma_chars_lt_asymmetric(xv, before[p as int]);
                        } else {
                            lemma_chars_lt_transitive(before[b - 1], xv, before[p as int]);
                        }
                    }
                } else {
                    assert(after[a] == before[a - 1] && after[b] == before[b - 1]);
                }
            }
            assert(input.subrange(0, i + 1) =~= input.subrange(0, i as int).push(xv));
            vstd::seq_lib::to_multiset_build(input.subrange(0, i as int), xv);
            vstd::seq_lib::to_multiset_insert(before, p as int, xv);
        }
        i += 1;
    }
    proof {
        assert(input.subrange(0, n as int) =~= input);
    }
    out
}

proof fn lemma_chars_lt_total_or_eq(a: Seq<char>, b: Seq<char>)
    ensures
        a == b || chars_lt(a, b) || chars_lt(b, a),
{
    if a != b {
        lemma_chars_lt_total(a, b);
    }
}

} // verus!
