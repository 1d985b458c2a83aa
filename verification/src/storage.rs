//! Item storage of a logistics network: the storage units reachable through
//! the network, in member order, and the item counts they hold together.

use vstd::prelude::*;
use crate::job_queue::get0;
use crate::strmap::StrMap;
use crate::text::owned;

verus! {

/// One storage unit: item id to count.
pub struct StorageUnit {
    pub items: StrMap<u32>,
}

/// The total count of `item` over a network's storage units.
pub open spec fn stored(s: Seq<StorageUnit>, item: Seq<char>) -> nat
    decreases s.len(),
{
    if s.len() == 0 {
        0
    } else {
        stored(s.drop_last(), item) + get0(s.last().items@, item) as nat
    }
}

/// How much of `count` is still wanted when the units before `i` have given
/// all they hold.
pub open spec fn wanted_at(s: Seq<StorageUnit>, item: Seq<char>, count: nat, i: int) -> nat {
    if stored(s.take(i), item) >= count {
        0
    } else {
        (count - stored(s.take(i), item)) as nat
    }
}

/// What unit `i` gives when `count` is taken greedily in member order.
pub open spec fn taken_from(s: Seq<StorageUnit>, item: Seq<char>, count: nat, i: int) -> nat {
    let a = get0(s[i].items@, item);
    let w = wanted_at(s, item, count, i);
    if a <= w {
        a as nat
    } else {
        w
    }
}

/// A unit's contents after `t` of `item` left it; an emptied entry goes away.
pub open spec fn after_take(m: Map<Seq<char>, u32>, item: Seq<char>, t: nat) -> Map<Seq<char>, u32> {
    if t == 0 {
        m
    } else if get0(m, item) == t {
        m.remove(item)
    } else {
        m.insert(item, (get0(m, item) - t) as u32)
    }
}

proof fn lemma_stored_take_step(s: Seq<StorageUnit>, item: Seq<char>, i: int)
    requires
        0 <= i < s.len(),
    ensures
        stored(s.take(i + 1), item) == stored(s.take(i), item) + get0(s[i].items@, item),
{
    assert(s.take(i + 1).drop_last() =~= s.take(i));
}

proof fn lemma_stored_frame(a: Seq<StorageUnit>, b: Seq<StorageUnit>, item: Seq<char>)
    requires
        a.len() == b.len(),
        forall|i: int| 0 <= i < a.len() ==> get0(#[trigger] a[i].items@, item) == get0(b[i].items@, item),
    ensures
        stored(a, item) == stored(b, item),
    decreases a.len(),
{
    if a.len() > 0 {
        assert forall|i: int| 0 <= i < a.len() - 1 implies get0(#[trigger] a.drop_last()[i].items@, item) == get0(b.drop_last()[i].items@, item) by {
            assert(a.drop_last()[i] == a[i] && b.drop_last()[i] == b[i]);
        }
        lemma_stored_frame(a.drop_last(), b.drop_last(), item);
    }
}

/// Whether the network's units hold at least `count` of `item` together.
pub fn has_items(storages: &Vec<StorageUnit>, item_id: &str, count: u32) -> (b: bool)
    requires
        stored(storages@, item_id@) <= u32::MAX,
    ensures
        b == (stored(storages@, item_id@) >= count),
{
    let mut total: u32 = 0;
    let mut i: usize = 0;
    while i < storages.len()
        invariant
            i <= storages@.len(),
            stored(storages@, item_id@) <= u32::MAX,
            total == stored(storages@.take(i as int), item_id@),
        decreases storages@.len() - i,
    {
        proof {
            lemma_stored_take_step(storages@, item_id@, i as int);
            lemma_stored_prefix(storages@, item_id@, i + 1);
        }
        let v = match storages[i].items.get(item_id) {
            Some(v) => *v,
            None => 0,
        };
        total = total + v;
        i += 1;
    }
    assert(storages@.take(storages@.len() as int) =~= storages@);
    total >= count
}

proof fn lemma_stored_prefix(s: Seq<StorageUnit>, item: Seq<char>, i: int)
    requires
        0 <= i <= s.len(),
    ensures
        stored(s.take(i), item) <= stored(s, item),
    decreases s.len() - i,
{
    if i < s.len() {
        lemma_stored_prefix(s, item, i + 1);
        lemma_stored_take_step(s, item, i);
    } else {
        assert(s.take(i) =~= s);
    }
}

/// Takes up to `count` of `item` from the units in member order, each giving
/// what it holds until the count is met; a unit left with none of the item
/// drops its entry. Together the units lose exactly the smaller of `count`
/// and what they held; other items and the number of units stay as they were.
pub fn take_items(storages: &mut Vec<StorageUnit>, item_id: &str, count: u32)
    ensures
        final(storages)@.len() == old(storages)@.len(),
        forall|i: int| 0 <= i < old(storages)@.len() ==> (#[trigger] final(storages)@[i]).items@ == after_take(
            old(storages)@[i].items@,
            item_id@,
            taken_from(old(storages)@, item_id@, count as nat, i),
        ),
        stored(final(storages)@, item_id@) == stored(old(storages)@, item_id@) - (if stored(old(storages)@, item_id@) <= count {
            stored(old(storages)@, item_id@)
        } else {
            count as nat
        }),
        forall|k: Seq<char>| k != item_id@ ==> #[trigger] stored(final(storages)@, k) == stored(old(storages)@, k),
{
    let ghost s0 = storages@;
    let ghost item = item_id@;
    let n = storages.len();
    let mut remaining = count;
    let mut i: usize = 0;
    while i < n
        invariant
            n == s0.len(),
            storages@.len() == n,
            item == item_id@,
            i <= n,
            remaining == wanted_at(s0, item, count as nat, i as int),
            forall|j: int| 0 <= j < i ==> (#[trigger] storages@[j]).items@ == after_take(
                s0[j].items@,
                item,
                taken_from(s0, item, count as nat, j),
            ),
            forall|j: int| i <= j < n ==> #[trigger] storages@[j] == s0[j],
            stored(storages@.take(i as int), item) == stored(s0.take(i as int), item) - (count - remaining),
            count - remaining <= stored(s0.take(i as int), item),
        decreases n - i,
    {
        let ghost pre = storages@;
        let mut unit = storages.remove(i);
        assert(unit == s0[i as int]);
        let avail = match unit.items.get(item_id) {
            Some(v) => *v,
            None => 0,
        };
        let take = if remaining < avail { remaining } else { avail };
        if take > 0 {
            let left = avail - take;
            if left == 0 {
                unit.items.remove(item_id);
            } else {
                unit.items.insert(owned(item_id), left);
            }
            remaining = remaining - take;
        }
        let ghost before = storages@;
        storages.insert(i, unit);
        proof {
            lemma_stored_take_step(s0, item, i as int);
            lemma_stored_take_step(storages@, item, i as int);
            assert(storages@.take(i as int) =~= before.take(i as int));
            assert(before.take(i as int) =~= pre.take(i as int));
            assert(take == taken_from(s0, item, count as nat, i as int));
            assert(get0(storages@[i as int].items@, item) == avail - take);
            assert(storages@[i as int].items@ =~= after_take(s0[i as int].items@, item, take as nat));
            assert forall|j: int| 0 <= j < i implies (#[trigger] storages@[j]).items@ == after_take(
                s0[j].items@,
                item,
                taken_from(s0, item, count as nat, j),
            ) by {
                assert(storages@[j] == before[j]);
            }
            assert forall|j: int| i + 1 <= j < n implies #[trigger] storages@[j] == s0[j] by {
                assert(storages@[j] == before[j - 1]);
            }
            assert(storages@.take(i as int) =~= before.take(i as int));
        }
        i += 1;
    }
    proof {
        assert(storages@.take(n as int) =~= storages@);
        assert(s0.take(n as int) =~= s0);
        assert forall|k: Seq<char>| k != item implies #[trigger] stored(storages@, k) == stored(s0, k) by {
            assert forall|j: int| 0 <= j < s0.len() implies get0(#[trigger] storages@[j].items@, k) == get0(s0[j].items@, k) by {
                let t = taken_from(s0, item, count as nat, j);
                assert(get0(after_take(s0[j].items@, item, t), k) == get0(s0[j].items@, k));
            }
            lemma_stored_frame(storages@, s0, k);
        }
    }
}

/// Puts `count` of `item` into the first unit; with no unit the items are lost.
pub fn give_items(storages: &mut Vec<StorageUnit>, item_id: &str, count: u32)
    requires
        old(storages)@.len() > 0 ==> get0(old(storages)@[0].items@, item_id@) + count <= u32::MAX,
    ensures
        final(storages)@.len() == old(storages)@.len(),
        old(storages)@.len() > 0 ==> final(storages)@[0].items@ == old(storages)@[0].items@.insert(
            item_id@,
            (get0(old(storages)@[0].items@, item_id@) + count) as u32,
        ),
        forall|i: int| 1 <= i < old(storages)@.len() ==> #[trigger] final(storages)@[i] == old(storages)@[i],
        old(storages)@.len() > 0 ==> stored(final(storages)@, item_id@) == stored(old(storages)@, item_id@) + count,
        forall|k: Seq<char>| k != item_id@ ==> #[trigger] stored(final(storages)@, k) == stored(old(storages)@, k),
        old(storages)@.len() == 0 ==> final(storages)@ == old(storages)@,
{
    if storages.len() == 0 {
        return;
    }
    let ghost s0 = storages@;
    let mut unit = storages.remove(0);
    let cur = match unit.items.get(item_id) {
        Some(v) => *v,
        None => 0,
    };
    unit.items.insert(owned(item_id), cur + count);
    storages.insert(0, unit);
    proof {
        let s1 = storages@;
        assert forall|i: int| 1 <= i < s0.len() implies #[trigger] s1[i] == s0[i] by {}
        lemma_stored_total_first(s0, s1, item_id@);
        assert forall|k: Seq<char>| k != item_id@ implies #[trigger] stored(s1, k) == stored(s0, k) by {
            assert(get0(s1[0].items@, k) == get0(s0[0].items@, k));
            lemma_stored_total_first(s0, s1, k);
        }
    }
}

proof fn lemma_stored_total_first(s0: Seq<StorageUnit>, s1: Seq<StorageUnit>, item: Seq<char>)
    requires
        s0.len() == s1.len(),
        s0.len() > 0,
        forall|i: int| 1 <= i < s0.len() ==> #[trigger] s1[i] == s0[i],
        get0(s1[0].items@, item) >= get0(s0[0].items@, item),
    ensures
        stored(s1, item) == stored(s0, item) + (get0(s1[0].items@, item) - get0(s0[0].items@, item)),
    decreases s0.len(),
{
    if s0.len() > 1 {
        let a = s0.drop_last();
        let b = s1.drop_last();
        assert forall|i: int| 1 <= i < a.len() implies #[trigger] b[i] == a[i] by {
            assert(b[i] == s1[i] && a[i] == s0[i]);
        }
        lemma_stored_total_first(a, b, item);
        assert(s1.last() == s0.last());
    } else {
        assert(s0.drop_last() =~= Seq::<StorageUnit>::empty());
        assert(s1.drop_last() =~= Seq::<StorageUnit>::empty());
    }
}

} // verus!
