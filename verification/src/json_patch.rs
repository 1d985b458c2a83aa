//! JSON documents and the merge patch the asset store applies to them:
//! objects merge key by key, recursively; anything else in the patch
//! replaces what it lands on wholesale.

use vstd::prelude::*;
use crate::text::{owned, str_eq};

verus! {

/// A JSON value. Numbers keep their textual form; objects keep their keys in
/// order, each once.
#[derive(Debug, PartialEq)]
pub enum Json {
    Null,
    Bool(bool),
    Number(String),
    Str(String),
    Array(Vec<Json>),
    Object(Vec<(String, Json)>),
}

/// The abstract form of a JSON value.
pub ghost enum JsonV {
    Null,
    Bool(bool),
    Number(Seq<char>),
    Str(Seq<char>),
    Array(Seq<JsonV>),
    Object(Seq<(Seq<char>, JsonV)>),
}

/// The abstract form of `j`.
pub open spec fn jv(j: Json) -> JsonV
    decreases j,
{
    match j {
        Json::Null => JsonV::Null,
        Json::Bool(b) => JsonV::Bool(b),
        Json::Number(n) => JsonV::Number(n@),
        Json::Str(s) => JsonV::Str(s@),
        Json::Array(a) => JsonV::Array(jv_seq(a@)),
        Json::Object(o) => JsonV::Object(jv_entries(o@)),
    }
}

/// The abstract forms of the items of an array.
pub open spec fn jv_seq(s: Seq<Json>) -> Seq<JsonV>
    decreases s,
{
    if s.len() == 0 {
        Seq::empty()
    } else {
        let n = s.len() - 1;
        jv_seq(s.subrange(0, n)).push(jv(s[n]))
    }
}

/// The abstract forms of the entries of an object.
pub open spec fn jv_entries(s: Seq<(String, Json)>) -> Seq<(Seq<char>, JsonV)>
    decreases s,
{
    if s.len() == 0 {
        Seq::empty()
    } else {
        let n = s.len() - 1;
        proof {
            assert(decreases_to!(s => s[n]));
        }
        jv_entries(s.subrange(0, n)).push((s[n].0@, jv(s[n].1)))
    }
}

/// The position of the first entry with key `k`, or -1.
pub open spec fn key_index(b: Seq<(Seq<char>, JsonV)>, k: Seq<char>) -> int
    decreases b.len(),
{
    if b.len() == 0 {
        -1
    } else {
        let i = key_index(b.subrange(0, b.len() - 1), k);
        if i >= 0 {
            i
        } else if b[b.len() - 1].0 == k {
            b.len() - 1
        } else {
            -1
        }
    }
}

/// `b` with patch `p` merged in: two objects merge key by key; any other
/// patch replaces `b` wholesale.
pub open spec fn merged(b: JsonV, p: JsonV) -> JsonV
    decreases p,
{
    match p {
        JsonV::Object(pe) => match b {
            JsonV::Object(be) => JsonV::Object(merged_entries(be, pe)),
            _ => p,
        },
        _ => p,
    }
}

/// Object entries `b` with patch entries `pe` merged in, in patch order: a key
/// already present merges in place, a new key is added at the end.
pub open spec fn merged_entries(b: Seq<(Seq<char>, JsonV)>, pe: Seq<(Seq<char>, JsonV)>) -> Seq<(Seq<char>, JsonV)>
    decreases pe,
{
    if pe.len() == 0 {
        b
    } else {
        let n = pe.len() - 1;
        let b1 = merged_entries(b, pe.subrange(0, n));
        let k = pe[n].0;
        let v = pe[n].1;
        let i = key_index(b1, k);
        proof {
            assert(decreases_to!(pe => pe[n]));
        }
        if i >= 0 && i < b1.len() {
            b1.update(i, (k, merged(b1[i].1, v)))
        } else {
            b1.push((k, v))
        }
    }
}

proof fn lemma_jv_seq(s: Seq<Json>)
    ensures
        jv_seq(s).len() == s.len(),
        forall|i: int| 0 <= i < s.len() ==> #[trigger] jv_seq(s)[i] == jv(s[i]),
    decreases s.len(),
{
    if s.len() > 0 {
        let n = s.len() - 1;
        let c = s.subrange(0, n);
        lemma_jv_seq(c);
        assert forall|i: int| 0 <= i < s.len() implies #[trigger] jv_seq(s)[i] == jv(s[i]) by {
            if i < n {
                assert(c[i] == s[i]);
            }
        }
    }
}

proof fn lemma_jv_entries(s: Seq<(String, Json)>)
    ensures
        jv_entries(s).len() == s.len(),
        forall|i: int| 0 <= i < s.len() ==> #[trigger] jv_entries(s)[i] == (s[i].0@, jv(s[i].1)),
    decreases s.len(),
{
    if s.len() > 0 {
        let n = s.len() - 1;
        let c = s.subrange(0, n);
        lemma_jv_entries(c);
        assert forall|i: int| 0 <= i < s.len() implies #[trigger] jv_entries(s)[i] == (s[i].0@, jv(s[i].1)) by {
            if i < n {
                assert(c[i] == s[i]);
            }
        }
    }
}

proof fn lemma_key_index(b: Seq<(Seq<char>, JsonV)>, k: Seq<char>)
    ensures
        -1 <= key_index(b, k) < b.len(),
        key_index(b, k) == -1 <==> forall|t: int| 0 <= t < b.len() ==> (#[trigger] b[t]).0 != k,
        key_index(b, k) >= 0 ==> b[key_index(b, k)].0 == k
            && forall|t: int| 0 <= t < key_index(b, k) ==> (#[trigger] b[t]).0 != k,
    decreases b.len(),
{
    if b.len() > 0 {
        let c = b.subrange(0, b.len() - 1);
        lemma_key_index(c, k);
        assert forall|t: int| 0 <= t < c.len() implies #[trigger] c[t] == b[t] by {}
        let i = key_index(c, k);
        if i >= 0 {
            assert(key_index(b, k) == i);
            assert(b[i] == c[i]);
            assert forall|t: int| 0 <= t < i implies (#[trigger] b[t]).0 != k by {
                assert(c[t] == b[t]);
            }
        } else if b[b.len() - 1].0 == k {
            assert(key_index(b, k) == b.len() - 1);
            assert forall|t: int| 0 <= t < b.len() - 1 implies (#[trigger] b[t]).0 != k by {
                assert(c[t] == b[t]);
            }
        } else {
            assert(key_index(b, k) == -1);
            assert forall|t: int| 0 <= t < b.len() implies (#[trigger] b[t]).0 != k by {
                if t < b.len() - 1 {
                    assert(c[t] == b[t]);
                }
            }
        }
    }
}

/// A copy of `j`.
pub fn deep_copy(j: &Json) -> (r: Json)
    ensures
        jv(r) == jv(*j),
    decreases j,
{
    match j {
        Json::Null => Json::Null,
        Json::Bool(b) => Json::Bool(*b),
        Json::Number(n) => Json::Number(owned(n.as_str())),
        Json::Str(t) => Json::Str(owned(t.as_str())),
        Json::Array(a) => {
            let mut out: Vec<Json> = Vec::new();
            let mut i: usize = 0;
            while i < a.len()
                invariant
                    *j == Json::Array(*a),
                    i <= a@.len(),
                    out@.len() == i,
                    forall|t: int| 0 <= t < i ==> jv(#[trigger] out@[t]) == jv(a@[t]),
                decreases a@.len() - i,
            {
                proof {
                    assert(decreases_to!(*j => (*j)->Array_0));
                }
                let c = deep_copy(&a[i]);
                out.push(c);
                i += 1;
            }
            proof {
                lemma_jv_seq(out@);
                lemma_jv_seq(a@);
                assert(jv_seq(out@) =~= jv_seq(a@));
            }
            Json::Array(out)
        },
        Json::Object(o) => {
            let mut out: Vec<(String, Json)> = Vec::new();
            let mut i: usize = 0;
            while i < o.len()
                invariant
                    *j == Json::Object(*o),
                    i <= o@.len(),
                    out@.len() == i,
                    forall|t: int| 0 <= t < i ==> (#[trigger] out@[t]).0@ == o@[t].0@ && jv(out@[t].1) == jv(o@[t].1),
                decreases o@.len() - i,
            {
                proof {
                    assert(decreases_to!(*j => (*j)->Object_0));
                    assert(decreases_to!(o@[i as int] => o@[i as int].1));
                }
                let c = deep_copy(&o[i].1);
                out.push((owned(o[i].0.as_str()), c));
                i += 1;
            }
            proof {
                lemma_jv_entries(out@);
                lemma_jv_entries(o@);
                assert(jv_entries(out@) =~= jv_entries(o@));
            }
            Json::Object(out)
        },
    }
}

fn find_key(b: &Vec<(String, Json)>, k: &str) -> (r: Option<usize>)
    ensures
        match r {
            Some(t) => t < b@.len() && key_index(jv_entries(b@), k@) == t,
            None => key_index(jv_entries(b@), k@) == -1,
        },
{
    proof {
        lemma_jv_entries(b@);
        lemma_key_index(jv_entries(b@), k@);
    }
    let mut i: usize = 0;
    while i < b.len()
        invariant
            i <= b@.len(),
            jv_entries(b@).len() == b@.len(),
            forall|t: int| 0 <= t < b@.len() ==> #[trigger] jv_entries(b@)[t] == (b@[t].0@, jv(b@[t].1)),
            forall|t: int| 0 <= t < i ==> (#[trigger] b@[t]).0@ != k@,
        decreases b@.len() - i,
    {
        if str_eq(b[i].0.as_str(), k) {
            proof {
                let e = jv_entries(b@);
                lemma_key_index(e, k@);
                assert(e[i as int].0 == k@);
                assert forall|t: int| 0 <= t < i implies (#[trigger] e[t]).0 != k@ by {
                    assert(e[t].0 == b@[t].0@);
                }
                let ki = key_index(e, k@);
                if ki != i {
                    if ki == -1 {
                        assert(e[i as int].0 != k@);
                    } else if ki < i {
                        assert(e[ki].0 != k@);
                    } else {
                        assert(e[i as int].0 != k@);
                    }
                }
            }
            return Some(i);
        }
        i += 1;
    }
    proof {
        let e = jv_entries(b@);
        lemma_key_index(e, k@);
        assert forall|t: int| 0 <= t < e.len() implies (#[trigger] e[t]).0 != k@ by {
            assert(e[t].0 == b@[t].0@);
        }
    }
    None
}

proof fn lemma_jv_entries_update(s: Seq<(String, Json)>, t: int, e: (String, Json))
    requires
        0 <= t < s.len(),
    ensures
        jv_entries(s.update(t, e)) == jv_entries(s).update(t, (e.0@, jv(e.1))),
{
    lemma_jv_entries(s);
    lemma_jv_entries(s.update(t, e));
    assert(jv_entries(s.update(t, e)) =~= jv_entries(s).update(t, (e.0@, jv(e.1))));
}

proof fn lemma_jv_entries_push(s: Seq<(String, Json)>, e: (String, Json))
    ensures
        jv_entries(s.push(e)) == jv_entries(s).push((e.0@, jv(e.1))),
{
    lemma_jv_entries(s);
    lemma_jv_entries(s.push(e));
    assert(jv_entries(s.push(e)) =~= jv_entries(s).push((e.0@, jv(e.1))));
}

/// Merges `patch` into `base`: when both are objects, each patch entry in
/// turn merges into the entry with its key, or is added at the end when the
/// key is new; any other patch replaces `base` wholesale.
pub fn merge(base: Json, patch: &Json) -> (r: Json)
    ensures
        jv(r) == merged(jv(base), jv(*patch)),
    decreases patch,
{
    match patch {
        Json::Object(pe) => match base {
            Json::Object(be) => {
                let ghost bv0 = jv_entries(be@);
                let ghost pv = jv_entries(pe@);
                proof {
                    lemma_jv_entries(pe@);
                    assert(pv.subrange(0, 0) =~= Seq::<(Seq<char>, JsonV)>::empty());
                }
                let mut b = be;
                let mut i: usize = 0;
                while i < pe.len()
                    invariant
                        *patch == Json::Object(*pe),
                        pv == jv_entries(pe@),
                        pv.len() == pe@.len(),
                        forall|t: int| 0 <= t < pe@.len() ==> #[trigger] pv[t] == (pe@[t].0@, jv(pe@[t].1)),
                        i <= pe@.len(),
                        jv_entries(b@) == merged_entries(bv0, pv.subrange(0, i as int)),
                    decreases pe@.len() - i,
                {
                    let ghost b1 = jv_entries(b@);
                    let ghost k = pe@[i as int].0@;
                    proof {
                        let sub = pv.subrange(0, i + 1);
                        assert(sub.subrange(0, i as int) =~= pv.subrange(0, i as int));
                        assert(sub[i as int] == pv[i as int]);
                        lemma_jv_entries(b@);
                        lemma_key_index(b1, k);
                    }
                    let idx = find_key(&b, pe[i].0.as_str());
                    match idx {
                        Some(t) => {
                            let ghost bs = b@;
                            let (kk, old) = b.remove(t);
                            proof {
                                assert(decreases_to!(*patch => (*patch)->Object_0));
                                assert(decreases_to!(pe@[i as int] => pe@[i as int].1));
                                assert(kk@ == b1[t as int].0);
                                assert(jv(old) == b1[t as int].1);
                            }
                            let m = merge(old, &pe[i].1);
                            let ghost kv = kk@;
                            b.insert(t, (kk, m));
                            proof {
                                assert(b@ =~= bs.update(t as int, (kk, m)));
                                lemma_jv_entries_update(bs, t as int, (kk, m));
                                assert(jv_entries(b@) =~= merged_entries(bv0, pv.subrange(0, i + 1)));
                            }
                        },
                        None => {
                            let ghost bs = b@;
                            let c = deep_copy(&pe[i].1);
                            let e = (owned(pe[i].0.as_str()), c);
                            let ghost ev = e;
                            b.push(e);
                            proof {
                                lemma_jv_entries_push(bs, ev);
                                assert(jv_entries(b@) =~= merged_entries(bv0, pv.subrange(0, i + 1)));
                            }
                        },
                    }
                    i += 1;
                }
                proof {
                    assert(pv.subrange(0, pe@.len() as int) =~= pv);
                }
                Json::Object(b)
            },
            _ => deep_copy(patch),
        },
        _ => deep_copy(patch),
    }
}

/// The value under key `k` in object entries `b` (its first occurrence).
pub open spec fn lookup(b: Seq<(Seq<char>, JsonV)>, k: Seq<char>) -> Option<JsonV> {
    let i = key_index(b, k);
    if 0 <= i < b.len() { Some(b[i].1) } else { None }
}

/// Some entry of `pe` has key `k`.
pub open spec fn has_key(pe: Seq<(Seq<char>, JsonV)>, k: Seq<char>) -> bool {
    exists|i: int| 0 <= i < pe.len() && (#[trigger] pe[i]).0 == k
}

proof fn lemma_step_keeps_other(b1: Seq<(Seq<char>, JsonV)>, k2: Seq<char>, v2: JsonV, k: Seq<char>)
    requires
        k2 != k,
    ensures
        ({
            let i = key_index(b1, k2);
            let b2 = if i >= 0 && i < b1.len() { b1.update(i, (k2, merged(b1[i].1, v2))) } else { b1.push((k2, v2)) };
            lookup(b2, k) == lookup(b1, k)
        }),
{
    let i = key_index(b1, k2);
    lemma_key_index(b1, k2);
    lemma_key_index(b1, k);
    let b2 = if i >= 0 && i < b1.len() { b1.update(i, (k2, merged(b1[i].1, v2))) } else { b1.push((k2, v2)) };
    lemma_key_index(b2, k);
    let j = key_index(b1, k);
    let j2 = key_index(b2, k);
    assert forall|t: int| 0 <= t < b1.len() implies (#[trigger] b2[t]).0 == b1[t].0 by {}
    if j >= 0 {
        if j2 != j {
            if j2 == -1 {
                assert(b2[j].0 == k);
            } else if j2 < j {
                assert(b1[j2].0 == k);
            } else {
                assert(b2[j].0 == k);
            }
        }
        assert(j != i);
    } else {
        if j2 >= 0 {
            if j2 < b1.len() {
                assert(b1[j2].0 == k);
            } else {
                assert(b2[j2].0 == k2);
            }
        }
    }
}

/// Merging object entries leaves every key the patch does not mention with
/// the value it had: untouched fields survive a patch.
pub proof fn lemma_untouched_keys_survive(be: Seq<(Seq<char>, JsonV)>, pe: Seq<(Seq<char>, JsonV)>, k: Seq<char>)
    requires
        !has_key(pe, k),
    ensures
        lookup(merged_entries(be, pe), k) == lookup(be, k),
    decreases pe.len(),
{
    if pe.len() > 0 {
        let n = pe.len() - 1;
        let c = pe.subrange(0, n);
        assert(!has_key(c, k)) by {
            if has_key(c, k) {
                let t = choose|t: int| 0 <= t < c.len() && (#[trigger] c[t]).0 == k;
                assert(pe[t] == c[t]);
            }
        }
        lemma_untouched_keys_survive(be, c, k);
        assert(pe[n].0 != k);
        lemma_step_keeps_other(merged_entries(be, c), pe[n].0, pe[n].1, k);
    }
}

/// A patch that is not an object replaces the value wholesale; so does any
/// patch applied to a value that is not an object.
pub proof fn lemma_non_object_replaces(b: JsonV, p: JsonV)
    requires
        !(p is Object) || !(b is Object),
    ensures
        merged(b, p) == p,
{
}

/// In a patch whose keys are distinct, a key carrying a value that is not an
/// object ends up with exactly that value: arrays and scalars replace
/// wholesale, and a key new to the base is added.
pub proof fn lemma_patched_key_replaced(be: Seq<(Seq<char>, JsonV)>, pe: Seq<(Seq<char>, JsonV)>, j: int)
    requires
        0 <= j < pe.len(),
        !(pe[j].1 is Object),
        forall|a: int, c: int| 0 <= a < c < pe.len() ==> (#[trigger] pe[a]).0 != (#[trigger] pe[c]).0,
    ensures
        lookup(merged_entries(be, pe), pe[j].0) == Some(pe[j].1),
    decreases pe.len(),
{
    let n = pe.len() - 1;
    let c = pe.subrange(0, n);
    let k = pe[j].0;
    let b1 = merged_entries(be, c);
    if j == n {
        let i = key_index(b1, k);
        lemma_key_index(b1, k);
        let b2 = if i >= 0 && i < b1.len() { b1.update(i, (k, merged(b1[i].1, pe[n].1))) } else { b1.push((k, pe[n].1)) };
        assert(merged_entries(be, pe) == b2);
        lemma_key_index(b2, k);
        let j2 = key_index(b2, k);
        if i >= 0 {
            if j2 != i {
                if j2 == -1 {
                    assert(b2[i].0 == k);
                } else if j2 < i {
                    assert(b1[j2].0 == k);
                } else {
                    assert(b2[i].0 == k);
                }
            }
        } else {
            assert forall|t: int| 0 <= t < b1.len() implies (#[trigger] b2[t]).0 == b1[t].0 by {}
            if j2 != b1.len() {
                if j2 == -1 {
                    assert(b2[b1.len() as int].0 == k);
                } else {
                    assert(b1[j2].0 == k);
                }
            }
        }
    } else {
        assert forall|a: int, d: int| 0 <= a < d < c.len() implies (#[trigger] c[a]).0 != (#[trigger] c[d]).0 by {
            assert(c[a] == pe[a] && c[d] == pe[d]);
        }
        assert(c[j] == pe[j]);
        lemma_patched_key_replaced(be, c, j);
        assert(pe[n].0 != k);
        lemma_step_keeps_other(b1, pe[n].0, pe[n].1, k);
    }
}

} // verus!
