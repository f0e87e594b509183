//! Schedules: the windows of the day in which one output is to be on.
use crate::time::{Interval, Moment};
use vstd::prelude::*;

verus! {

broadcast use vstd::seq_lib::group_to_multiset_ensures;

/// Whether window `a` comes no later than `b`: by `from`, then by `to`.
pub open spec fn interval_le(a: Interval, b: Interval) -> bool {
    a.from@ < b.from@ || (a.from@ == b.from@ && a.to@ <= b.to@)
}

/// Whether window `a` comes strictly before `b`: by `from`, then by `to`.
pub open spec fn interval_lt(a: Interval, b: Interval) -> bool {
    a.from@ < b.from@ || (a.from@ == b.from@ && a.to@ < b.to@)
}

/// Whether the windows of `s` stand in ascending order.
pub open spec fn is_sorted(s: Seq<Interval>) -> bool {
    forall|i: int, j: int| 0 <= i < j < s.len() ==> interval_le(#[trigger] s[i], #[trigger] s[j])
}

/// Whether `after` holds the windows of `before`, each as often, in ascending order.
pub open spec fn sorts_to(before: Seq<Interval>, after: Seq<Interval>) -> bool {
    &&& is_sorted(after)
    &&& after.to_multiset() == before.to_multiset()
}

/// The windows during which the output numbered `id` is to be on.
#[derive(Debug, Clone)]
pub struct Schedule {
    pub id: u8,
    pub events: Vec<Interval>,
}

impl Schedule {
    /// Whether some window of the schedule holds the moment `v` milliseconds after midnight.
    pub open spec fn holds(self, v: int) -> bool {
        exists|i: int| 0 <= i < self.events@.len() && (#[trigger] self.events@[i]).holds(v)
    }

    /// Whether some window of the schedule holds `t`.
    pub fn in_interval(&self, t: Moment) -> (r: bool)
        ensures
            r == self.holds(t@),
    {
        let mut i: usize = 0;
        while i < self.events.len()
            invariant
                i <= self.events@.len(),
                forall|j: int| 0 <= j < i ==> !(#[trigger] self.events@[j]).holds(t@),
            decreases self.events@.len() - i,
        {
            if self.events[i].contains(t) {
                return true;
            }
            i = i + 1;
        }
        false
    }

    /// Puts the windows in ascending order of `from`, then of `to`.
    pub fn sort(&mut self)
        ensures
            final(self).id == old(self).id,
            sorts_to(old(self).events@, final(self).events@),
    {
        let n = self.events.len();
        let mut out: Vec<Interval> = Vec::new();
        let mut i: usize = 0;
        while i < n
            invariant
                n == self.events@.len(),
                i <= n,
                is_sorted(out@),
                out@.to_multiset() == self.events@.subrange(0, i as int).to_multiset(),
            decreases n - i,
        {
            let x = self.events[i];
            let p = insert_position(&out, x);
            let ghost before = out@;
            out.insert(p, x);
            assert forall|a: int, b: int| 0 <= a < b < out@.len() implies interval_le(
                #[trigger] out@[a],
                #[trigger] out@[b],
            ) by {
                if b < p {
                    assert(out@[a] == before[a] && out@[b] == before[b]);
                } else if b == p {
                    assert(out@[a] == before[a]);
                } else if a < p {
                    assert(out@[a] == before[a] && out@[b] == before[b - 1]);
                } else if a == p {
                    assert(out@[b] == before[b - 1]);
                } else {
                    assert(out@[a] == before[a - 1] && out@[b] == before[b - 1]);
                }
            }
            assert(self.events@.subrange(0, i + 1) =~= self.events@.subrange(0, i as int).push(x));
            i = i + 1;
        }
        assert(self.events@.subrange(0, n as int) =~= self.events@);
        self.events = out;
    }
}

/// Whether window `a` comes strictly before `b`.
fn precedes(a: Interval, b: Interval) -> (r: bool)
    ensures
        r == interval_lt(a, b),
{
    let af = a.from.as_milliseconds();
    let bf = b.from.as_milliseconds();
    af < bf || (af == bf && a.to.as_milliseconds() < b.to.as_milliseconds())
}

/// Where `x` goes in the sorted `out`: after every window that does not come after it.
fn insert_position(out: &Vec<Interval>, x: Interval) -> (p: usize)
    requires
        is_sorted(out@),
    ensures
        p <= out@.len(),
        forall|j: int| 0 <= j < p ==> interval_le(#[trigger] out@[j], x),
        forall|j: int| p <= j < out@.len() ==> interval_lt(x, #[trigger] out@[j]),
{
    let mut p: usize = 0;
    while p < out.len() && !precedes(x, out[p])
        invariant
            p <= out@.len(),
            forall|j: int| 0 <= j < p ==> interval_le(#[trigger] out@[j], x),
        decreases out@.len() - p,
    {
        p = p + 1;
    }
    assert forall|j: int| p <= j < out@.len() implies interval_lt(x, #[trigger] out@[j]) by {
        if j > p {
            assert(interval_le(out@[p as int], out@[j]));
        }
    }
    p
}

/// Two sorted sequences that hold the same windows, each as often, are equal.
pub proof fn lemma_sorted_unique(a: Seq<Interval>, b: Seq<Interval>)
    requires
        is_sorted(a),
        is_sorted(b),
        a.to_multiset() == b.to_multiset(),
    ensures
        a == b,
    decreases a.len(),
{
    assert(a.to_multiset().len() == a.len());
    assert(b.to_multiset().len() == b.len());
    if a.len() == 0 {
        assert(a =~= b);
    } else {
        let x = a[0];
        let y = b[0];
        assert(a.contains(x));
        assert(a.to_multiset().count(x) > 0);
        assert(b.to_multiset().count(x) > 0);
        assert(b.contains(x));
        let j = choose|j: int| 0 <= j < b.len() && b[j] == x;
        assert(interval_le(y, x)) by {
            if j > 0 {
                assert(interval_le(b[0], b[j]));
            }
        }
        assert(b.contains(y));
        assert(b.to_multiset().count(y) > 0);
        assert(a.to_multiset().count(y) > 0);
        assert(a.contains(y));
        let k = choose|k: int| 0 <= k < a.len() && a[k] == y;
        assert(interval_le(x, y)) by {
            if k > 0 {
                assert(interval_le(a[0], a[k]));
            }
        }
        x.from.lemma_view_injective(y.from);
        x.to.lemma_view_injective(y.to);
        assert(x == y);
        assert(a.remove(0) =~= a.drop_first());
        assert(b.remove(0) =~= b.drop_first());
        lemma_sorted_unique(a.drop_first(), b.drop_first());
        assert forall|i: int| 0 <= i < a.len() implies a[i] == b[i] by {
            if i > 0 {
                assert(a[i] == a.drop_first()[i - 1]);
                assert(b[i] == b.drop_first()[i - 1]);
            }
        }
        assert(a =~= b);
    }
}

/// Sorting is idempotent: sorting a second time leaves the windows as the
/// first sort left them.
pub proof fn lemma_sort_idempotent(events: Seq<Interval>, once: Seq<Interval>, twice: Seq<Interval>)
    requires
        sorts_to(events, once),
        sorts_to(once, twice),
    ensures
        twice == once,
{
    lemma_sorted_unique(twice, once);
}

} // verus!
