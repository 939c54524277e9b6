use vstd::prelude::*;

use crate::naming::{ServiceKey, ServiceKeyView};

verus! {

/// One pending timer: an absolute expiry together with the service key to
/// wake then.
pub struct TimerEntry {
    pub expiry: u64,
    pub key: ServiceKey,
}

/// The view of a `TimerEntry`.
pub struct TimerEntryView {
    pub expiry: u64,
    pub key: ServiceKeyView,
}

impl View for TimerEntry {
    type V = TimerEntryView;

    open spec fn view(&self) -> TimerEntryView {
        TimerEntryView { expiry: self.expiry, key: self.key@ }
    }
}

/// Index of the first entry of `s` that expires after `t`; `s.len()` when
/// every entry is due at or before `t`.
pub open spec fn first_after(s: Seq<TimerEntryView>, t: u64) -> int
    decreases s.len(),
{
    if s.len() == 0 {
        0
    } else if s[0].expiry > t {
        0
    } else {
        1 + first_after(s.skip(1), t)
    }
}

/// A scan that passed only entries due at or before `t`, and stopped at the
/// first later one, has computed `first_after`.
proof fn lemma_first_after_at(s: Seq<TimerEntryView>, t: u64, i: int)
    requires
        0 <= i <= s.len(),
        forall|j: int| 0 <= j < i ==> (#[trigger] s[j]).expiry <= t,
        i < s.len() ==> s[i].expiry > t,
    ensures
        first_after(s, t) == i,
    decreases s.len(),
{
    if s.len() > 0 && s[0].expiry <= t {
        assert(i >= 1);
        assert forall|j: int| 0 <= j < i - 1 implies (#[trigger] s.skip(1)[j]).expiry <= t by {
            assert(s.skip(1)[j] == s[j + 1]);
        }
        assert(i - 1 < s.skip(1).len() ==> s.skip(1)[i - 1].expiry > t);
        lemma_first_after_at(s.skip(1), t, i - 1);
    }
}

/// The timer schedule: the pending `(expiry, key)` entries, kept sorted by
/// expiry.  It is logically a multiset; entries for the same key, and equal
/// expiries, may coexist.
pub struct TimeoutSet {
    entries: Vec<TimerEntry>,
}

impl View for TimeoutSet {
    type V = Seq<TimerEntryView>;

    closed spec fn view(&self) -> Seq<TimerEntryView> {
        Seq::new(self.entries@.len(), |i: int| self.entries@[i]@)
    }
}

/// Sorted by expiry, ascending.
pub open spec fn expiry_sorted(s: Seq<TimerEntryView>) -> bool {
    forall|i: int, j: int|
        0 <= i <= j < s.len() ==> (#[trigger] s[i]).expiry <= (#[trigger] s[j]).expiry
}

impl TimeoutSet {
    pub open spec fn wf(&self) -> bool {
        expiry_sorted(self@)
    }

    pub fn new() -> (r: Self)
        ensures
            r.wf(),
            r@ == Seq::<TimerEntryView>::empty(),
    {
        let r = TimeoutSet { entries: Vec::new() };
        proof {
            assert(r@ =~= Seq::<TimerEntryView>::empty());
        }
        r
    }

    pub fn len(&self) -> (r: usize)
        ensures
            r == self@.len(),
    {
        self.entries.len()
    }

    /// Arms one timer.  The entry goes in before the first strictly later
    /// expiry, so entries with equal expiries stay in arrival order.
    pub fn add(&mut self, expiry: u64, key: ServiceKey)
        requires
            old(self).wf(),
        ensures
            final(self).wf(),
            final(self)@ == old(self)@.insert(
                first_after(old(self)@, expiry),
                TimerEntryView { expiry, key: key@ },
            ),
    {
        let ghost kv = key@;
        let ghost orig = self@;
        let n = self.entries.len();
        let mut i: usize = 0;
        loop
            invariant
                i <= n,
                n == self@.len(),
                self@ == orig,
                *self == *old(self),
                forall|j: int| 0 <= j < i ==> (#[trigger] self@[j]).expiry <= expiry,
            ensures
                i <= n,
                self@ == orig,
                *self == *old(self),
                forall|j: int| 0 <= j < i ==> (#[trigger] self@[j]).expiry <= expiry,
                i < n ==> self@[i as int].expiry > expiry,
            decreases n - i,
        {
            if i == n {
                break;
            }
            if self.entries[i].expiry > expiry {
                break;
            }
            i = i + 1;
        }
        proof {
            lemma_first_after_at(orig, expiry, i as int);
        }
        self.entries.insert(i, TimerEntry { expiry, key });
        proof {
            let x = TimerEntryView { expiry, key: kv };
            assert(self@ =~= orig.insert(i as int, x));
            orig.insert_ensures(i as int, x);
            assert forall|a: int, b: int|
                0 <= a <= b < self@.len() implies (#[trigger] self@[a]).expiry <= (
            #[trigger] self@[b]).expiry by {
                if a < i && b < i {
                } else if a >= i + 1 && b >= i + 1 {
                    assert(self@[a] == orig[a - 1]);
                    assert(self@[b] == orig[b - 1]);
                } else if a < i && b >= i + 1 {
                    assert(self@[a] == orig[a]);
                    assert(self@[b] == orig[b - 1]);
                } else if a == i && b >= i + 1 {
                    assert(self@[b] == orig[b - 1]);
                    assert(orig[b - 1].expiry > expiry);
                } else if a < i && b == i {
                    assert(self@[a] == orig[a]);
                }
            }
        }
    }

    /// Removes and returns the keys of every entry due at or before `now`,
    /// in expiry order.  Later entries stay.
    pub fn timeout(&mut self, now: u64) -> (r: Vec<ServiceKey>)
        requires
            old(self).wf(),
        ensures
            final(self).wf(),
            r@.len() == first_after(old(self)@, now),
            forall|i: int| 0 <= i < r@.len() ==> (#[trigger] r@[i])@ == old(self)@[i].key,
            final(self)@ == old(self)@.skip(first_after(old(self)@, now)),
    {
        let ghost orig = self@;
        let mut r: Vec<ServiceKey> = Vec::new();
        assert(self@ =~= orig.skip(0));
        loop
            invariant
                r@.len() <= orig.len(),
                self@ == orig.skip(r@.len() as int),
                self@.len() == self.entries@.len(),
                expiry_sorted(orig),
                forall|j: int| 0 <= j < r@.len() ==> (#[trigger] r@[j])@ == orig[j].key,
                forall|j: int| 0 <= j < r@.len() ==> (#[trigger] orig[j]).expiry <= now,
            ensures
                r@.len() <= orig.len(),
                self@ == orig.skip(r@.len() as int),
                forall|j: int| 0 <= j < r@.len() ==> (#[trigger] r@[j])@ == orig[j].key,
                forall|j: int| 0 <= j < r@.len() ==> (#[trigger] orig[j]).expiry <= now,
                r@.len() == orig.len() || orig[r@.len() as int].expiry > now,
            decreases self@.len(),
        {
            let ghost k = r@.len() as int;
            if self.entries.len() == 0 {
                assert(orig.skip(k).len() == 0);
                break;
            }
            if self.entries[0].expiry > now {
                assert(self@[0] == orig.skip(k)[0]);
                assert(orig.skip(k)[0] == orig[k]);
                break;
            }
            assert(self@[0] == orig[k]);
            let ghost pre_entries = self.entries@;
            let e = self.entries.remove(0);
            r.push(e.key);
            proof {
                pre_entries.remove_ensures(0);
                assert forall|i: int| 0 <= i < self@.len() implies self@[i] == orig.skip(k + 1)[i] by {
                    assert(self.entries@[i] == pre_entries[i + 1]);
                    assert(orig.skip(k + 1)[i] == orig[k + 1 + i]);
                    assert(orig.skip(k)[i + 1] == orig[k + 1 + i]);
                }
                assert(self@ =~= orig.skip(k + 1));
            }
        }
        proof {
            let k = r@.len() as int;
            lemma_first_after_at(orig, now, k);
            assert forall|i: int, j: int|
                0 <= i <= j < self@.len() implies (#[trigger] self@[i]).expiry <= (
            #[trigger] self@[j]).expiry by {
                assert(self@[i] == orig[k + i]);
                assert(self@[j] == orig[k + j]);
            }
        }
        r
    }
}

} // verus!
