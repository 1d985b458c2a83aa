//! A machine model's port layout: its nodes named `Port_Energy_<i>` and
//! `Port_Logistics_<i>`, each kind ordered by index.

use vstd::prelude::*;
use crate::cli::{parse_u64, u64_named};
use crate::text::str_eq;
use vstd::string::StrSliceExecFns;

verus! {

/// The index a node name carries after `prefix`, when it has the prefix and
/// the rest spells a `usize`.
pub open spec fn port_index(name: Seq<char>, prefix: Seq<char>) -> Option<usize> {
    if name.len() >= prefix.len() && name.subrange(0, prefix.len() as int) == prefix {
        match u64_named(name.subrange(prefix.len() as int, name.len() as int)) {
            Some(v) => if v <= usize::MAX { Some(v as usize) } else { None },
            None => None,
        }
    } else {
        None
    }
}

/// The name prefix of energy ports.
pub open spec fn energy_prefix() -> Seq<char> {
    "Port_Energy_"@
}

/// The name prefix of logistics ports.
pub open spec fn logistics_prefix() -> Seq<char> {
    "Port_Logistics_"@
}

/// The indexed positions of the nodes whose names carry `prefix` (and, when
/// `skip` is given, do not carry it), in node order.
pub open spec fn indexed<P>(named: Seq<(String, P)>, prefix: Seq<char>, skip: Option<Seq<char>>) -> Seq<(usize, P)>
    decreases named.len(),
{
    if named.len() == 0 {
        Seq::empty()
    } else {
        let rest = indexed(named.drop_last(), prefix, skip);
        let (n, p) = named.last();
        let skipped = match skip {
            Some(s) => port_index(n@, s) is Some,
            None => false,
        };
        match port_index(n@, prefix) {
            Some(i) => if skipped { rest } else { rest.push((i, p)) },
            None => rest,
        }
    }
}

/// The position at which `x` goes into index-ordered `s`: after every entry
/// whose index is not greater.
pub open spec fn slot_for<P>(s: Seq<(usize, P)>, k: usize) -> int
    decreases s.len(),
{
    if s.len() == 0 {
        0
    } else if s.last().0 <= k {
        s.len() as int
    } else {
        slot_for(s.drop_last(), k)
    }
}

/// `s` sorted by index, stably: entries with equal indices keep their order.
pub open spec fn by_index<P>(s: Seq<(usize, P)>) -> Seq<(usize, P)>
    decreases s.len(),
{
    if s.len() == 0 {
        Seq::empty()
    } else {
        let t = by_index(s.drop_last());
        t.insert(slot_for(t, s.last().0), s.last())
    }
}

/// The positions of `s`, dropping the indices.
pub open spec fn positions<P>(s: Seq<(usize, P)>) -> Seq<P> {
    s.map_values(|e: (usize, P)| e.1)
}

/// Non-decreasing indices.
pub open spec fn index_sorted<P>(s: Seq<(usize, P)>) -> bool {
    forall|i: int, j: int| 0 <= i < j < s.len() ==> (#[trigger] s[i]).0 <= (#[trigger] s[j]).0
}

fn index_after(name: &str, prefix: &str) -> (r: Option<usize>)
    ensures
        r == port_index(name@, prefix@),
{
    let n = name.unicode_len();
    let m = prefix.unicode_len();
    if n < m {
        return None;
    }
    if !str_eq(name.substring_char(0, m), prefix) {
        return None;
    }
    match parse_u64(name.substring_char(m, n)) {
        Some(v) => {
            if v <= usize::MAX as u64 {
                Some(v as usize)
            } else {
                None
            }
        },
        None => None,
    }
}

proof fn lemma_slot_for<P>(s: Seq<(usize, P)>, k: usize)
    requires
        index_sorted(s),
    ensures
        0 <= slot_for(s, k) <= s.len(),
        forall|i: int| 0 <= i < slot_for(s, k) ==> (#[trigger] s[i]).0 <= k,
        forall|i: int| slot_for(s, k) <= i < s.len() ==> (#[trigger] s[i]).0 > k,
    decreases s.len(),
{
    if s.len() > 0 {
        if s.last().0 <= k {
            assert forall|i: int| 0 <= i < s.len() implies (#[trigger] s[i]).0 <= k by {
                if i < s.len() - 1 {
                    assert(s[i].0 <= s[s.len() - 1].0);
                }
            }
        } else {
            let d = s.drop_last();
            assert(index_sorted(d)) by {
                assert forall|i: int, j: int| 0 <= i < j < d.len() implies (#[trigger] d[i]).0 <= (#[trigger] d[j]).0 by {
                    assert(d[i] == s[i] && d[j] == s[j]);
                }
            }
            lemma_slot_for(d, k);
            assert forall|i: int| 0 <= i < slot_for(s, k) implies (#[trigger] s[i]).0 <= k by {
                assert(d[i] == s[i]);
            }
            assert forall|i: int| slot_for(s, k) <= i < s.len() implies (#[trigger] s[i]).0 > k by {
                if i < s.len() - 1 {
                    assert(d[i] == s[i]);
                }
            }
        }
    }
}

/// Stable insertion by index into index-ordered `out`.
fn insert_by_index<P: Copy>(out: &mut Vec<(usize, P)>, x: (usize, P))
    requires
        index_sorted(old(out)@),
    ensures
        final(out)@ == old(out)@.insert(slot_for(old(out)@, x.0), x),
        index_sorted(final(out)@),
{
    proof {
        lemma_slot_for(out@, x.0);
    }
    let ghost s = out@;
    let mut p: usize = out.len();
    while p > 0 && out[p - 1].0 > x.0
        invariant
            s == out@,
            p <= s.len(),
            forall|i: int| p <= i < s.len() ==> (#[trigger] s[i]).0 > x.0,
            slot_for(s, x.0) <= p,
            forall|i: int| 0 <= i < slot_for(s, x.0) ==> (#[trigger] s[i]).0 <= x.0,
        decreases p,
    {
        p -= 1;
    }
    proof {
        if p > 0 {
            assert(s[p - 1].0 <= x.0);
            assert(slot_for(s, x.0) >= p) by {
                if slot_for(s, x.0) < p {
                    assert(s[p - 1].0 > x.0);
                }
            }
        }
    }
    out.insert(p, x);
    proof {
        let t = out@;
        assert forall|i: int, j: int| 0 <= i < j < t.len() implies (#[trigger] t[i]).0 <= (#[trigger] t[j]).0 by {
            if j < p {
                assert(t[i] == s[i] && t[j] == s[j]);
            } else if j == p {
                assert(t[i] == s[i]);
            } else if i < p {
                assert(t[i] == s[i] && t[j] == s[j - 1]);
                assert(s[i].0 <= x.0);
            } else if i == p {
                assert(t[j] == s[j - 1]);
            } else {
                assert(t[i] == s[i - 1] && t[j] == s[j - 1]);
            }
        }
    }
}

/// Sorts by index, stably.
fn sort_by_index<P: Copy>(v: &Vec<(usize, P)>) -> (out: Vec<(usize, P)>)
    ensures
        out@ == by_index(v@),
        index_sorted(out@),
{
    let mut out: Vec<(usize, P)> = Vec::new();
    let mut i: usize = 0;
    while i < v.len()
        invariant
            i <= v@.len(),
            out@ == by_index(v@.subrange(0, i as int)),
            index_sorted(out@),
        decreases v@.len() - i,
    {
        proof {
            assert(v@.subrange(0, i + 1).drop_last() =~= v@.subrange(0, i as int));
        }
        insert_by_index(&mut out, v[i]);
        i += 1;
    }
    proof {
        assert(v@.subrange(0, v@.len() as int) =~= v@);
    }
    out
}

/// The port layout of a model from its named nodes, each with its position:
/// the energy ports, then the logistics ports, each ordered by the index in
/// the node name (equal indices keep node order). Other nodes are ignored.
pub fn extract_layout<P: Copy>(named: &Vec<(String, P)>) -> (r: (Vec<P>, Vec<P>))
    ensures
        r.0@ == positions(by_index(indexed(named@, energy_prefix(), None))),
        r.1@ == positions(by_index(indexed(named@, logistics_prefix(), Some(energy_prefix())))),
{
    let mut energy: Vec<(usize, P)> = Vec::new();
    let mut logistics: Vec<(usize, P)> = Vec::new();
    let mut i: usize = 0;
    while i < named.len()
        invariant
            i <= named@.len(),
            energy@ == indexed(named@.subrange(0, i as int), energy_prefix(), None),
            logistics@ == indexed(named@.subrange(0, i as int), logistics_prefix(), Some(energy_prefix())),
        decreases named@.len() - i,
    {
        proof {
            assert(named@.subrange(0, i + 1).drop_last() =~= named@.subrange(0, i as int));
            assert(named@.subrange(0, i + 1).last() == named@[i as int]);
        }
        let name = named[i].0.as_str();
        let pos = named[i].1;
        match index_after(name, "Port_Energy_") {
            Some(k) => {
                energy.push((k, pos));
            },
            None => {
                match index_after(name, "Port_Logistics_") {
                    Some(k) => {
                        logistics.push((k, pos));
                    },
                    None => {},
                }
            },
        }
        i += 1;
    }
    proof {
        assert(named@.subrange(0, named@.len() as int) =~= named@);
    }
    let se = sort_by_index(&energy);
    let sl = sort_by_index(&logistics);
    let mut e: Vec<P> = Vec::new();
    let mut j: usize = 0;
    while j < se.len()
        invariant
            j <= se@.len(),
            e@ == positions(se@.subrange(0, j as int)),
        decreases se@.len() - j,
    {
        e.push(se[j].1);
        proof {
            assert(positions(se@.subrange(0, j + 1)) =~= positions(se@.subrange(0, j as int)).push(se@[j as int].1));
        }
        j += 1;
    }
    let mut l: Vec<P> = Vec::new();
    let mut j: usize = 0;
    while j < sl.len()
        invariant
            j <= sl@.len(),
            l@ == positions(sl@.subrange(0, j as int)),
        decreases sl@.len() - j,
    {
        l.push(sl[j].1);
        proof {
            assert(positions(sl@.subrange(0, j + 1)) =~= positions(sl@.subrange(0, j as int)).push(sl@[j as int].1));
        }
        j += 1;
    }
    proof {
        assert(se@.subrange(0, se@.len() as int) =~= se@);
        assert(sl@.subrange(0, sl@.len() as int) =~= sl@);
    }
    (e, l)
}

/// Ordering by index sorts and keeps every entry: the result has
/// non-decreasing indices and the same entries as the input.
pub proof fn lemma_by_index<P>(s: Seq<(usize, P)>)
    ensures
        index_sorted(by_index(s)),
        by_index(s).to_multiset() == s.to_multiset(),
    decreases s.len(),
{
    if s.len() > 0 {
        let d = s.drop_last();
        let x = s.last();
        lemma_by_index(d);
        let t = by_index(d);
        lemma_slot_for(t, x.0);
        let p = slot_for(t, x.0);
        let u = t.insert(p, x);
        assert(by_index(s) == u);
        assert forall|i: int, j: int| 0 <= i < j < u.len() implies (#[trigger] u[i]).0 <= (#[trigger] u[j]).0 by {
            if j < p {
                assert(u[i] == t[i] && u[j] == t[j]);
            } else if j == p {
                assert(u[i] == t[i]);
            } else if i < p {
                assert(u[i] == t[i] && u[j] == t[j - 1]);
            } else if i == p {
                assert(u[j] == t[j - 1]);
            } else {
                assert(u[i] == t[i - 1] && u[j] == t[j - 1]);
            }
        }
        assert(d.push(x) =~= s);
        vstd::seq_lib::to_multiset_insert(t, p, x);
        vstd::seq_lib::to_multiset_build(d, x);
        assert(u.to_multiset() == t.to_multiset().insert(x));
        assert(s.to_multiset() == d.to_multiset().insert(x));
    } else {
        assert(by_index(s) =~= s);
    }
}

} // verus!
