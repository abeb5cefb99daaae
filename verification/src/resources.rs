//! Resource classes (GPU / CPU) that leaf invocations lease: capacities, needs, and the
//! lease bookkeeping of one run.

use vstd::prelude::*;

use crate::collections::NameMap;
use crate::schema::{opt_string, option_text, Capability, Job, ResolvedStep, Step};
use crate::text::{ends_with, has_suffix, owned, str_eq};

verus! {

/// A contended accelerator class: `gpu`, `metal_gpu`, `cuda_gpu` or any `*_gpu`.
pub open spec fn accelerator(class: Seq<char>) -> bool {
    class == "gpu"@ || class == "metal_gpu"@ || class == "cuda_gpu"@ || has_suffix(class, "_gpu"@)
}

pub fn is_accelerator_class(class: &str) -> (b: bool)
    ensures
        b == accelerator(class@),
{
    str_eq(class, "gpu") || str_eq(class, "metal_gpu") || str_eq(class, "cuda_gpu") || ends_with(
        class,
        "_gpu",
    )
}

/// Slots of `class`: the configured capacity, else one for an accelerator, else no limit.
pub open spec fn capacity_of(capacity: Map<Seq<char>, u32>, class: Seq<char>) -> u32 {
    if capacity.contains_key(class) {
        capacity[class]
    } else if accelerator(class) {
        1
    } else {
        u32::MAX
    }
}

pub fn effective_capacity(capacity: &NameMap<u32>, class: &str) -> (c: u32)
    ensures
        c == capacity_of(capacity@, class@),
{
    if let Some(c) = capacity.get(class) {
        return *c;
    }
    if is_accelerator_class(class) {
        1
    } else {
        u32::MAX
    }
}

/// Units of `class` held now.
pub open spec fn held(leased: Map<Seq<char>, u32>, class: Seq<char>) -> u32 {
    if leased.contains_key(class) {
        leased[class]
    } else {
        0
    }
}

pub open spec fn sat_add(a: u32, b: u32) -> u32 {
    if a + b > u32::MAX {
        u32::MAX
    } else {
        (a + b) as u32
    }
}

/// Every class of `need` fits beside what is held (sums saturate at `u32::MAX`).
pub open spec fn fits(
    capacity: Map<Seq<char>, u32>,
    leased: Map<Seq<char>, u32>,
    need: Map<Seq<char>, u32>,
) -> bool {
    forall|k: Seq<char>|
        #[trigger] need.contains_key(k) ==> sat_add(held(leased, k), need[k]) <= capacity_of(
            capacity,
            k,
        )
}

pub fn can_lease(capacity: &NameMap<u32>, leased: &NameMap<u32>, need: &NameMap<u32>) -> (b: bool)
    ensures
        b == fits(capacity@, leased@, need@),
{
    let n = need.len();
    let mut i: usize = 0;
    proof {
        need.lemma_view();
    }
    while i < n
        invariant
            n == need.key_list().len(),
            need.well_formed(),
            i <= n,
            forall|k: Seq<char>| #[trigger] need@.contains_key(k) <==> need.key_list().contains(k),
            forall|j: int| #![trigger need.key_list()[j]] 0 <= j < need.key_list().len() ==>
                need@.contains_key(need.key_list()[j]) && need@[need.key_list()[j]]
                    == need.value_list()[j],
            forall|j: int|
                0 <= j < i ==> sat_add(
                    held(leased@, #[trigger] need.key_list()[j]),
                    need.value_list()[j],
                ) <= capacity_of(capacity@, need.key_list()[j]),
        decreases n - i,
    {
        let k = need.key_at(i);
        let amount = *need.value_at(i);
        let cap = effective_capacity(capacity, k.as_str());
        let used = match leased.get(k.as_str()) {
            Some(u) => *u,
            None => 0,
        };
        if used.saturating_add(amount) > cap {
            return false;
        }
        i = i + 1;
    }
    proof {
        assert forall|k: Seq<char>| #[trigger] need@.contains_key(k) implies sat_add(
            held(leased@, k),
            need@[k],
        ) <= capacity_of(capacity@, k) by {
            let j = need.key_list().index_of(k);
            assert(need.key_list()[j] == k);
        }
    }
    true
}

/// Lease bookkeeping of one run: capacities per class and the units held.
#[derive(Debug)]
pub struct ResourcePool {
    capacity: NameMap<u32>,
    leased: NameMap<u32>,
}

proof fn lemma_held_insert(l: Map<Seq<char>, u32>, k: Seq<char>, v: u32, x: Seq<char>)
    ensures
        held(l.insert(k, v), x) == (if x == k {
            v
        } else {
            held(l, x)
        }),
{
}

/// Held units after taking `need` (saturating).
pub open spec fn taken(leased: Map<Seq<char>, u32>, need: Map<Seq<char>, u32>, k: Seq<char>) -> u32 {
    if need.contains_key(k) {
        sat_add(held(leased, k), need[k])
    } else {
        held(leased, k)
    }
}

/// Held units after giving back `need` (saturating at zero).
pub open spec fn returned(leased: Map<Seq<char>, u32>, need: Map<Seq<char>, u32>, k: Seq<char>) -> u32 {
    if need.contains_key(k) && leased.contains_key(k) {
        if leased[k] >= need[k] {
            (leased[k] - need[k]) as u32
        } else {
            0
        }
    } else {
        held(leased, k)
    }
}

/// No class holds more units than its capacity.
pub open spec fn within_capacity(capacity: Map<Seq<char>, u32>, leased: Map<Seq<char>, u32>) -> bool {
    forall|k: Seq<char>| #[trigger] held(leased, k) <= capacity_of(capacity, k)
}

proof fn lemma_taken_within(
    capacity: Map<Seq<char>, u32>,
    leased: Map<Seq<char>, u32>,
    need: Map<Seq<char>, u32>,
    after: Map<Seq<char>, u32>,
)
    requires
        within_capacity(capacity, leased),
        fits(capacity, leased, need),
        forall|k: Seq<char>| #[trigger] held(after, k) == taken(leased, need, k),
    ensures
        within_capacity(capacity, after),
{
    assert forall|k: Seq<char>| #[trigger] held(after, k) <= capacity_of(capacity, k) by {
        assert(held(after, k) == taken(leased, need, k));
        assert(held(leased, k) <= capacity_of(capacity, k));
    }
}

proof fn lemma_returned_within(
    capacity: Map<Seq<char>, u32>,
    leased: Map<Seq<char>, u32>,
    need: Map<Seq<char>, u32>,
    after: Map<Seq<char>, u32>,
)
    requires
        within_capacity(capacity, leased),
        forall|k: Seq<char>| #[trigger] held(after, k) == returned(leased, need, k),
    ensures
        within_capacity(capacity, after),
{
    assert forall|k: Seq<char>| #[trigger] held(after, k) <= capacity_of(capacity, k) by {
        assert(held(after, k) == returned(leased, need, k));
        assert(held(leased, k) <= capacity_of(capacity, k));
    }
}

impl ResourcePool {
    pub closed spec fn capacity_view(&self) -> Map<Seq<char>, u32> {
        self.capacity@
    }

    pub closed spec fn leased_view(&self) -> Map<Seq<char>, u32> {
        self.leased@
    }

    /// Live leases hold no class above its capacity.
    pub open spec fn within_capacity(&self) -> bool {
        within_capacity(self.capacity_view(), self.leased_view())
    }

    pub fn new(capacity: NameMap<u32>) -> (p: Self)
        ensures
            p.capacity_view() == capacity@,
            p.leased_view() == Map::<Seq<char>, u32>::empty(),
            p.within_capacity(),
    {
        ResourcePool { capacity, leased: NameMap::new() }
    }

    pub fn capacity(&self) -> (c: &NameMap<u32>)
        ensures
            c@ == self.capacity_view(),
    {
        &self.capacity
    }

    pub fn leased(&self) -> (l: &NameMap<u32>)
        ensures
            l@ == self.leased_view(),
    {
        &self.leased
    }

    /// Takes `need` when it fits and says whether it did; the caller waits and retries
    /// otherwise. An empty need always succeeds.
    pub fn try_acquire(&mut self, need: &NameMap<u32>) -> (ok: bool)
        ensures
            final(self).capacity_view() == old(self).capacity_view(),
            ok == (need@.dom().len() == 0 || fits(
                old(self).capacity_view(),
                old(self).leased_view(),
                need@,
            )),
            ok && need@.dom().len() != 0 ==> forall|k: Seq<char>|
                #[trigger] held(final(self).leased_view(), k) == taken(
                    old(self).leased_view(),
                    need@,
                    k,
                ),
            !ok || need@.dom().len() == 0 ==> final(self).leased_view() == old(
                self,
            ).leased_view(),
            old(self).within_capacity() ==> final(self).within_capacity(),
    {
        if need.len() == 0 {
            return true;
        }
        if !can_lease(&self.capacity, &self.leased, need) {
            return false;
        }
        proof {
            need.lemma_view();
            assert(need@.contains_key(need.key_list()[0]));
        }
        let ghost before = self.leased@;
        let n = need.len();
        let mut i: usize = 0;
        while i < n
            invariant
                n == need.key_list().len(),
                need.well_formed(),
                i <= n,
                self.capacity@ == old(self).capacity@,
                before == old(self).leased@,
                forall|j: int| #![trigger need.key_list()[j]] 0 <= j < need.key_list().len() ==>
                    need@.contains_key(need.key_list()[j]) && need@[need.key_list()[j]]
                        == need.value_list()[j],
                forall|k: Seq<char>| #[trigger] need@.contains_key(k) <==> need.key_list().contains(k),
                forall|k: Seq<char>|
                    #[trigger] held(self.leased@, k) == (if need.key_list().subrange(
                        0,
                        i as int,
                    ).contains(k) {
                        taken(before, need@, k)
                    } else {
                        held(before, k)
                    }),
            decreases n - i,
        {
            let k = need.key_at(i);
            let amount = *need.value_at(i);
            let used = match self.leased.get(k.as_str()) {
                Some(u) => *u,
                None => 0,
            };
            let ghost l0 = self.leased@;
            self.leased.insert(k.clone(), used.saturating_add(amount));
            proof {
                let ks = need.key_list();
                assert(ks[i as int] == k@);
                assert(!ks.subrange(0, i as int).contains(k@)) by {
                    if ks.subrange(0, i as int).contains(k@) {
                        let j = ks.subrange(0, i as int).index_of(k@);
                        assert(ks[j] == ks[i as int]);
                        crate::collections::lemma_sorted_unique(ks, j, i as int);
                    }
                }
                assert forall|x: Seq<char>| #[trigger] ks.subrange(0, i + 1).contains(x) <==> (
                ks.subrange(0, i as int).contains(x) || x == k@) by {
                    if ks.subrange(0, i + 1).contains(x) {
                        let j = ks.subrange(0, i + 1).index_of(x);
                        if j < i {
                            assert(ks.subrange(0, i as int)[j] == x);
                        }
                    }
                    if ks.subrange(0, i as int).contains(x) {
                        let j = ks.subrange(0, i as int).index_of(x);
                        assert(ks.subrange(0, i + 1)[j] == x);
                    }
                    if x == k@ {
                        assert(ks.subrange(0, i + 1)[i as int] == x);
                    }
                }
                assert(held(l0, k@) == held(before, k@));
                assert forall|x: Seq<char>| #[trigger] held(self.leased@, x) == (if ks.subrange(
                    0,
                    i + 1,
                ).contains(x) {
                    taken(before, need@, x)
                } else {
                    held(before, x)
                }) by {
                    lemma_held_insert(l0, k@, sat_add(held(l0, k@), need@[k@]), x);
                    assert(ks.subrange(0, i + 1).contains(x) ==> need@.contains_key(x)) by {
                        if ks.subrange(0, i + 1).contains(x) {
                            let j = ks.subrange(0, i + 1).index_of(x);
                            assert(ks[j] == x);
                        }
                    }
                }
            }
            i = i + 1;
        }
        proof {
            assert(need.key_list().subrange(0, n as int) =~= need.key_list());
            if within_capacity(old(self).capacity@, before) {
                lemma_taken_within(self.capacity@, before, need@, self.leased@);
            }
        }
        true
    }

    /// Gives back `need`.
    pub fn release(&mut self, need: &NameMap<u32>)
        ensures
            final(self).capacity_view() == old(self).capacity_view(),
            forall|k: Seq<char>|
                #[trigger] held(final(self).leased_view(), k) == returned(
                    old(self).leased_view(),
                    need@,
                    k,
                ),
            old(self).within_capacity() ==> final(self).within_capacity(),
    {
        let n = need.len();
        proof {
            need.lemma_view();
        }
        let ghost before = self.leased@;
        let mut i: usize = 0;
        while i < n
            invariant
                n == need.key_list().len(),
                need.well_formed(),
                i <= n,
                self.capacity@ == old(self).capacity@,
                before == old(self).leased@,
                self.leased@.dom() == before.dom(),
                forall|j: int| #![trigger need.key_list()[j]] 0 <= j < need.key_list().len() ==>
                    need@.contains_key(need.key_list()[j]) && need@[need.key_list()[j]]
                        == need.value_list()[j],
                forall|k: Seq<char>| #[trigger] need@.contains_key(k) <==> need.key_list().contains(k),
                forall|k: Seq<char>|
                    #[trigger] held(self.leased@, k) == (if need.key_list().subrange(
                        0,
                        i as int,
                    ).contains(k) {
                        returned(before, need@, k)
                    } else {
                        held(before, k)
                    }),
            decreases n - i,
        {
            let k = need.key_at(i);
            let amount = *need.value_at(i);
            let ghost l0 = self.leased@;
            let cur = match self.leased.get(k.as_str()) {
                Some(u) => Some(*u),
                None => None,
            };
            if let Some(u) = cur {
                self.leased.insert(k.clone(), u.saturating_sub(amount));
            }
            proof {
                let ks = need.key_list();
                assert(ks[i as int] == k@);
                assert(!ks.subrange(0, i as int).contains(k@)) by {
                    if ks.subrange(0, i as int).contains(k@) {
                        let j = ks.subrange(0, i as int).index_of(k@);
                        assert(ks[j] == ks[i as int]);
                        crate::collections::lemma_sorted_unique(ks, j, i as int);
                    }
                }
                assert forall|x: Seq<char>| #[trigger] ks.subrange(0, i + 1).contains(x) <==> (
                ks.subrange(0, i as int).contains(x) || x == k@) by {
                    if ks.subrange(0, i + 1).contains(x) {
                        let j = ks.subrange(0, i + 1).index_of(x);
                        if j < i {
                            assert(ks.subrange(0, i as int)[j] == x);
                        }
                    }
                    if ks.subrange(0, i as int).contains(x) {
                        let j = ks.subrange(0, i as int).index_of(x);
                        assert(ks.subrange(0, i + 1)[j] == x);
                    }
                    if x == k@ {
                        assert(ks.subrange(0, i + 1)[i as int] == x);
                    }
                }
                assert(held(l0, k@) == held(before, k@));
                assert(l0.contains_key(k@) == before.contains_key(k@));
                if before.contains_key(k@) {
                    assert(l0[k@] == before[k@]);
                    assert(self.leased@.dom() =~= before.dom());
                }
                assert forall|x: Seq<char>| #[trigger] held(self.leased@, x) == (if ks.subrange(
                    0,
                    i + 1,
                ).contains(x) {
                    returned(before, need@, x)
                } else {
                    held(before, x)
                }) by {
                    if before.contains_key(k@) {
                        lemma_held_insert(l0, k@, self.leased@[k@], x);
                    }
                    assert(ks.subrange(0, i + 1).contains(x) ==> need@.contains_key(x)) by {
                        if ks.subrange(0, i + 1).contains(x) {
                            let j = ks.subrange(0, i + 1).index_of(x);
                            assert(ks[j] == x);
                        }
                    }
                }
            }
            i = i + 1;
        }
        proof {
            assert(need.key_list().subrange(0, n as int) =~= need.key_list());
            if within_capacity(old(self).capacity@, before) {
                lemma_returned_within(self.capacity@, before, need@, self.leased@);
            }
        }
    }
}

/// Units of resource classes held by one leaf until it finishes.
#[derive(Debug)]
pub struct ResourceLease {
    need: NameMap<u32>,
}

impl ResourceLease {
    /// The units held, by class.
    pub closed spec fn need_view(&self) -> Map<Seq<char>, u32> {
        self.need@
    }

    pub fn need(&self) -> (r: &NameMap<u32>)
        ensures
            r@ == self.need_view(),
    {
        &self.need
    }
}

impl ResourcePool {
    /// Leases `need` when it fits under capacity (an empty need always does); `None` when
    /// the caller must wait for a release and ask again.
    pub fn acquire(&mut self, need: &NameMap<u32>) -> (r: Option<ResourceLease>)
        ensures
            final(self).capacity_view() == old(self).capacity_view(),
            r.is_some() == (need@.dom().len() == 0 || fits(
                old(self).capacity_view(),
                old(self).leased_view(),
                need@,
            )),
            r.is_some() ==> r->0.need_view() == need@,
            r.is_some() && need@.dom().len() != 0 ==> forall|k: Seq<char>|
                #[trigger] held(final(self).leased_view(), k) == taken(
                    old(self).leased_view(),
                    need@,
                    k,
                ),
            r.is_none() || need@.dom().len() == 0 ==> final(self).leased_view() == old(
                self,
            ).leased_view(),
            old(self).within_capacity() ==> final(self).within_capacity(),
    {
        if self.try_acquire(need) {
            Some(ResourceLease { need: need.copied() })
        } else {
            None
        }
    }

    /// Ends a lease, giving its units back.
    pub fn end_lease(&mut self, lease: ResourceLease)
        ensures
            final(self).capacity_view() == old(self).capacity_view(),
            forall|k: Seq<char>|
                #[trigger] held(final(self).leased_view(), k) == returned(
                    old(self).leased_view(),
                    lease.need_view(),
                    k,
                ),
            old(self).within_capacity() ==> final(self).within_capacity(),
    {
        self.release(&lease.need);
    }
}

/// Units of `class` that the leases in `live` hold together.
pub open spec fn live_units(live: Seq<Map<Seq<char>, u32>>, class: Seq<char>) -> nat
    decreases live.len(),
{
    if live.len() == 0 {
        0
    } else {
        live_units(live.drop_last(), class) + held(live.last(), class) as nat
    }
}

proof fn lemma_live_units_remove(live: Seq<Map<Seq<char>, u32>>, i: int, class: Seq<char>)
    requires
        0 <= i < live.len(),
    ensures
        live_units(live, class) == live_units(live.remove(i), class) + held(live[i], class),
    decreases live.len(),
{
    if i < live.len() - 1 {
        assert(live.remove(i).drop_last() =~= live.drop_last().remove(i));
        assert(live.remove(i).last() == live.last());
        lemma_live_units_remove(live.drop_last(), i, class);
    } else {
        assert(live.remove(i) =~= live.drop_last());
    }
}

/// Live leases never hold a class above its capacity, taking a lease: when what the pool
/// holds of each class is what its live leases hold together, within capacity, then after
/// taking a need that fits the same holds of the live leases with the new one. (The sums
/// are kept below `u32::MAX`, where the pool's counts saturate.)
pub proof fn law_live_leases_after_take(
    capacity: Map<Seq<char>, u32>,
    live: Seq<Map<Seq<char>, u32>>,
    before: Map<Seq<char>, u32>,
    need: Map<Seq<char>, u32>,
    after: Map<Seq<char>, u32>,
)
    requires
        forall|k: Seq<char>| #[trigger] held(before, k) == live_units(live, k),
        forall|k: Seq<char>| #[trigger] live_units(live, k) <= capacity_of(capacity, k),
        fits(capacity, before, need),
        forall|k: Seq<char>| #[trigger] held(after, k) == taken(before, need, k),
        forall|k: Seq<char>| #[trigger] live_units(live, k) + held(need, k) <= u32::MAX,
    ensures
        forall|k: Seq<char>| #[trigger] held(after, k) == live_units(live.push(need), k),
        forall|k: Seq<char>| #[trigger] live_units(live.push(need), k) <= capacity_of(capacity, k),
{
    assert forall|k: Seq<char>|
        #![trigger held(after, k)]
        #![trigger live_units(live.push(need), k)]
        held(after, k) == live_units(live.push(need), k) && live_units(live.push(need), k)
            <= capacity_of(capacity, k) by {
        assert(live.push(need).drop_last() =~= live);
        assert(held(before, k) == live_units(live, k));
        assert(live_units(live, k) + held(need, k) <= u32::MAX);
        assert(live_units(live, k) <= capacity_of(capacity, k));
        assert(held(after, k) == taken(before, need, k));
    }
}

/// Live leases never hold a class above its capacity, ending a lease: when what the pool
/// holds of each class is what its live leases hold together, within capacity, then after
/// giving back the `i`th live lease the same holds of the leases that remain.
pub proof fn law_live_leases_after_end(
    capacity: Map<Seq<char>, u32>,
    live: Seq<Map<Seq<char>, u32>>,
    i: int,
    before: Map<Seq<char>, u32>,
    after: Map<Seq<char>, u32>,
)
    requires
        0 <= i < live.len(),
        forall|k: Seq<char>| #[trigger] held(before, k) == live_units(live, k),
        forall|k: Seq<char>| #[trigger] live_units(live, k) <= capacity_of(capacity, k),
        forall|k: Seq<char>| #[trigger] held(after, k) == returned(before, live[i], k),
    ensures
        forall|k: Seq<char>| #[trigger] held(after, k) == live_units(live.remove(i), k),
        forall|k: Seq<char>| #[trigger] live_units(live.remove(i), k) <= capacity_of(capacity, k),
{
    assert forall|k: Seq<char>|
        #![trigger held(after, k)]
        #![trigger live_units(live.remove(i), k)]
        held(after, k) == live_units(live.remove(i), k) && live_units(live.remove(i), k)
            <= capacity_of(capacity, k) by {
        lemma_live_units_remove(live, i, k);
        assert(held(before, k) == live_units(live, k));
        assert(live_units(live, k) <= capacity_of(capacity, k));
        assert(held(after, k) == returned(before, live[i], k));
    }
}

/// Taking a need that fits and giving it back leaves every class holding what it held.
pub proof fn law_acquire_release(
    capacity: Map<Seq<char>, u32>,
    leased: Map<Seq<char>, u32>,
    need: Map<Seq<char>, u32>,
    after_take: Map<Seq<char>, u32>,
    after_give: Map<Seq<char>, u32>,
    k: Seq<char>,
)
    requires
        fits(capacity, leased, need),
        forall|x: Seq<char>| #[trigger] held(after_take, x) == taken(leased, need, x),
        forall|x: Seq<char>| #[trigger] held(after_give, x) == returned(after_take, need, x),
        forall|x: Seq<char>|
            #[trigger] need.contains_key(x) ==> held(leased, x) + need[x] <= u32::MAX,
    ensures
        held(after_give, k) == held(leased, k),
{
    assert(held(after_give, k) == returned(after_take, need, k));
    assert(held(after_take, k) == taken(leased, need, k));
    if need.contains_key(k) {
        if !after_take.contains_key(k) {
            assert(held(after_take, k) == 0);
        }
    }
}

/// The class a leaf needs by default: transcription and diarization on the device they
/// name (`cuda` → `cuda_gpu`, `metal` → `metal_gpu`, unset or `auto` → `metal_gpu` on
/// macOS, else `cpu`); everything else on `cpu`.
pub open spec fn default_class(c: Capability, options: NameMap<crate::schema::ArgValue>, macos: bool) -> Seq<char> {
    if c == Capability::Transcribe || c == Capability::Diarize {
        match option_text(options, "device"@) {
            Some(d) => if d == "cpu"@ {
                "cpu"@
            } else if d == "cuda"@ {
                "cuda_gpu"@
            } else if d == "metal"@ {
                "metal_gpu"@
            } else if d == "auto"@ {
                if macos {
                    "metal_gpu"@
                } else {
                    "cpu"@
                }
            } else {
                "cpu"@
            },
            None => if macos {
                "metal_gpu"@
            } else {
                "cpu"@
            },
        }
    } else {
        "cpu"@
    }
}

pub fn default_resource_class(
    capability: Capability,
    options: &NameMap<crate::schema::ArgValue>,
    macos: bool,
) -> (r: &'static str)
    ensures
        r@ == default_class(capability, *options, macos),
{
    match capability {
        Capability::Transcribe | Capability::Diarize => match opt_string(options, "device") {
            Some(d) => {
                if str_eq(d.as_str(), "cpu") {
                    "cpu"
                } else if str_eq(d.as_str(), "cuda") {
                    "cuda_gpu"
                } else if str_eq(d.as_str(), "metal") {
                    "metal_gpu"
                } else if str_eq(d.as_str(), "auto") {
                    if macos {
                        "metal_gpu"
                    } else {
                        "cpu"
                    }
                } else {
                    "cpu"
                }
            },
            None => if macos {
                "metal_gpu"
            } else {
                "cpu"
            },
        },
        _ => "cpu",
    }
}

/// The class a leaf holds while it runs.
pub open spec fn need_class(step: ResolvedStep, job_step: Step, macos: bool) -> Seq<char> {
    match job_step.resource {
        Some(c) => c@,
        None => default_class(step.capability, step.options, macos),
    }
}

/// Units a leaf holds while it runs: one of its declared resource class, else one of its
/// default class.
pub fn step_resource_need(step: &ResolvedStep, job_step: &Step, macos: bool) -> (r: NameMap<u32>)
    ensures
        r@ == map![need_class(*step, *job_step, macos) => 1u32],
{
    let mut need: NameMap<u32> = NameMap::new();
    match &job_step.resource {
        Some(class) => {
            need.insert(class.clone(), 1);
        },
        None => {
            let class = default_resource_class(step.capability, &step.options, macos);
            need.insert(owned(class), 1);
        },
    }
    assert(need@ =~= map![need_class(*step, *job_step, macos) => 1u32]);
    need
}

/// The `cpu` capacity: the reported parallelism (at least 1), 4 when unknown.
pub open spec fn cpu_capacity(parallelism: Option<usize>) -> u32 {
    match parallelism {
        Some(n) => if (n as u32) >= 1 {
            n as u32
        } else {
            1u32
        },
        None => 4u32,
    }
}

/// Platform capacities: `cpu` as reported, and one `metal_gpu` slot on macOS.
pub open spec fn platform_capacity(parallelism: Option<usize>, macos: bool) -> Map<Seq<char>, u32> {
    if macos {
        map!["cpu"@ => cpu_capacity(parallelism), "metal_gpu"@ => 1u32]
    } else {
        map!["cpu"@ => cpu_capacity(parallelism)]
    }
}

/// Platform capacities: `cpu` as reported (4 when unknown, at least 1), and one
/// `metal_gpu` slot on macOS.
pub fn default_capacity(parallelism: Option<usize>, macos: bool) -> (r: NameMap<u32>)
    ensures
        r@ == platform_capacity(parallelism, macos),
        r@.contains_key("cpu"@),
        r@["cpu"@] == (match parallelism {
            Some(n) => if (n as u32) >= 1 {
                n as u32
            } else {
                1u32
            },
            None => 4u32,
        }),
        r@.contains_key("metal_gpu"@) == macos,
        macos ==> r@["metal_gpu"@] == 1,
        r@.dom().len() == (if macos {
            2nat
        } else {
            1nat
        }),
{
    let mut m: NameMap<u32> = NameMap::new();
    let cpu: u32 = match parallelism {
        Some(n) => n as u32,
        None => 4,
    };
    m.insert(owned("cpu"), if cpu >= 1 {
        cpu
    } else {
        1
    });
    proof {
        reveal_strlit("cpu");
        reveal_strlit("metal_gpu");
        assert("cpu"@.len() != "metal_gpu"@.len());
    }
    if macos {
        m.insert(owned("metal_gpu"), 1);
        assert(m@.dom() =~= set!["cpu"@, "metal_gpu"@]);
        assert(m@ =~= platform_capacity(parallelism, macos));
    } else {
        assert(m@.dom() =~= set!["cpu"@]);
        assert(m@ =~= platform_capacity(parallelism, macos));
    }
    m
}

/// A Job's capacities: a class the Job names has the Job's capacity; otherwise `cpu` has
/// the reported parallelism (at least 1, 4 when unknown) and, on macOS, `metal_gpu` one
/// slot; no other class has a capacity.
pub proof fn law_job_capacity(
    resources: Map<Seq<char>, u32>,
    parallelism: Option<usize>,
    macos: bool,
    k: Seq<char>,
)
    ensures
        ({
            let c = platform_capacity(parallelism, macos).union_prefer_right(resources);
            &&& c.contains_key(k) <==> (resources.contains_key(k) || k == "cpu"@ || (macos && k
                == "metal_gpu"@))
            &&& resources.contains_key(k) ==> c[k] == resources[k]
            &&& !resources.contains_key(k) && k == "cpu"@ ==> c[k] == (match parallelism {
                Some(n) => if n as u32 == 0 {
                    1u32
                } else {
                    n as u32
                },
                None => 4u32,
            })
            &&& !resources.contains_key(k) && macos && k == "metal_gpu"@ ==> c[k] == 1u32
        }),
{
    reveal_strlit("cpu");
    reveal_strlit("metal_gpu");
    assert("cpu"@.len() != "metal_gpu"@.len());
    assert("cpu"@ != "metal_gpu"@);
}

/// Job capacities: the Job's `resources` over the platform defaults.
pub fn resolve_job_capacity(job: &Job, parallelism: Option<usize>, macos: bool) -> (r: NameMap<u32>)
    ensures
        exists|d: Map<Seq<char>, u32>| r@ == #[trigger] d.union_prefer_right(job.resources@),
        r@ == platform_capacity(parallelism, macos).union_prefer_right(job.resources@),
{
    let mut caps = default_capacity(parallelism, macos);
    let ghost d = caps@;
    let n = job.resources.len();
    let mut i: usize = 0;
    proof {
        job.resources.lemma_view();
    }
    let ghost ks = job.resources.key_list();
    assert(d.union_prefer_right(Map::new(
        |k: Seq<char>| ks.subrange(0, 0).contains(k),
        |k: Seq<char>| job.resources@[k],
    )) =~= d);
    while i < n
        invariant
            n == ks.len(),
            ks == job.resources.key_list(),
            job.resources.well_formed(),
            i <= n,
            forall|j: int| #![trigger ks[j]] 0 <= j < ks.len() ==>
                job.resources@.contains_key(ks[j]) && job.resources@[ks[j]]
                    == job.resources.value_list()[j],
            forall|k: Seq<char>| #[trigger] job.resources@.contains_key(k) <==> ks.contains(k),
            caps@ == d.union_prefer_right(Map::new(
                |k: Seq<char>| ks.subrange(0, i as int).contains(k),
                |k: Seq<char>| job.resources@[k],
            )),
        decreases n - i,
    {
        let k = job.resources.key_at(i);
        let v = *job.resources.value_at(i);
        caps.insert(k.clone(), v);
        proof {
            assert(ks[i as int] == k@);
            assert forall|x: Seq<char>| #[trigger] ks.subrange(0, i + 1).contains(x) <==> (
            ks.subrange(0, i as int).contains(x) || x == k@) by {
                if ks.subrange(0, i + 1).contains(x) {
                    let j = ks.subrange(0, i + 1).index_of(x);
                    if j < i {
                        assert(ks.subrange(0, i as int)[j] == x);
                    }
                }
                if ks.subrange(0, i as int).contains(x) {
                    let j = ks.subrange(0, i as int).index_of(x);
                    assert(ks.subrange(0, i + 1)[j] == x);
                }
                if x == k@ {
                    assert(ks.subrange(0, i + 1)[i as int] == x);
                }
            }
            assert(caps@ =~= d.union_prefer_right(Map::new(
                |x: Seq<char>| ks.subrange(0, i + 1).contains(x),
                |x: Seq<char>| job.resources@[x],
            )));
        }
        i = i + 1;
    }
    proof {
        assert(ks.subrange(0, n as int) =~= ks);
        assert(Map::new(|k: Seq<char>| ks.subrange(0, n as int).contains(k), |k: Seq<char>| job.resources@[k])
            =~= job.resources@);
    }
    caps
}

} // verus!
