//! Stable ordering of events by tick.
//!
//! A stable sort by tick is characterised by two facts: the result is ordered
//! by tick, and for every tick the events carrying it keep their relative
//! order (`with_tick` of the result and of the input agree).
use vstd::prelude::*;
use crate::event::MidiEvent;

verus! {

/// `s` is ordered by tick (non-decreasing).
pub open spec fn sorted_by_tick(s: Seq<MidiEvent>) -> bool {
    forall|i: int, j: int| 0 <= i <= j < s.len() ==> s[i].tick <= s[j].tick
}

/// The events of `s` that carry tick `t`, in their order in `s`.
pub open spec fn with_tick(s: Seq<MidiEvent>, t: u64) -> Seq<MidiEvent>
    decreases s.len(),
{
    if s.len() == 0 {
        Seq::empty()
    } else {
        with_tick(s.drop_last(), t) + (if s.last().tick == t { seq![s.last()] } else { Seq::empty() })
    }
}

/// `out` is `input` stably sorted by tick.
pub open spec fn is_stable_tick_sort(out: Seq<MidiEvent>, input: Seq<MidiEvent>) -> bool {
    &&& sorted_by_tick(out)
    &&& forall|t: u64| #[trigger] with_tick(out, t) == with_tick(input, t)
}

/// The runs of `runs` one after the other.
pub open spec fn concat_runs(runs: Seq<Vec<MidiEvent>>) -> Seq<MidiEvent>
    decreases runs.len(),
{
    if runs.len() == 0 {
        Seq::empty()
    } else {
        concat_runs(runs.drop_last()) + runs.last()@
    }
}

pub proof fn lemma_with_tick_push(s: Seq<MidiEvent>, x: MidiEvent, t: u64)
    ensures
        with_tick(s.push(x), t) == with_tick(s, t) + (if x.tick == t { seq![x] } else { Seq::empty() }),
{
    assert(s.push(x).drop_last() =~= s);
}

pub proof fn lemma_with_tick_concat(a: Seq<MidiEvent>, b: Seq<MidiEvent>, t: u64)
    ensures
        with_tick(a + b, t) == with_tick(a, t) + with_tick(b, t),
    decreases b.len(),
{
    if b.len() == 0 {
        assert(a + b =~= a);
        assert(with_tick(a, t) + with_tick(b, t) =~= with_tick(a, t));
    } else {
        let b0 = b.drop_last();
        lemma_with_tick_concat(a, b0, t);
        assert((a + b).drop_last() =~= a + b0);
        assert((a + b).last() == b.last());
        assert(with_tick(a + b, t) =~= with_tick(a, t) + with_tick(b, t));
    }
}

pub proof fn lemma_with_tick_absent(s: Seq<MidiEvent>, t: u64)
    requires
        forall|k: int| 0 <= k < s.len() ==> s[k].tick != t,
    ensures
        with_tick(s, t) == Seq::<MidiEvent>::empty(),
    decreases s.len(),
{
    if s.len() > 0 {
        lemma_with_tick_absent(s.drop_last(), t);
        assert(with_tick(s, t) =~= Seq::<MidiEvent>::empty());
    }
}

proof fn lemma_concat_runs_take(runs: Seq<Vec<MidiEvent>>, i: int)
    requires
        0 <= i < runs.len(),
    ensures
        concat_runs(runs.take(i + 1)) == concat_runs(runs.take(i)) + runs[i]@,
{
    assert(runs.take(i + 1).drop_last() =~= runs.take(i));
}

/// Merges two tick-ordered runs; on equal ticks events of `a` come first.
pub fn merge_by_tick(a: &Vec<MidiEvent>, b: &Vec<MidiEvent>) -> (res: Vec<MidiEvent>)
    requires
        sorted_by_tick(a@),
        sorted_by_tick(b@),
    ensures
        is_stable_tick_sort(res@, a@ + b@),
{
    let mut res: Vec<MidiEvent> = Vec::new();
    let mut i: usize = 0;
    let mut j: usize = 0;
    while i < a.len() || j < b.len()
        invariant
            i <= a.len(),
            j <= b.len(),
            sorted_by_tick(a@),
            sorted_by_tick(b@),
            sorted_by_tick(res@),
            res@.len() == i + j,
            forall|k: int| 0 <= k < res@.len() ==> (i < a.len() ==> res@[k].tick <= a@[i as int].tick),
            forall|k: int| 0 <= k < res@.len() ==> (j < b.len() ==> res@[k].tick <= b@[j as int].tick),
            i < a.len() ==> forall|k: int| 0 <= k < j ==> b@[k].tick < a@[i as int].tick,
            forall|t: u64| #[trigger] with_tick(res@, t) == with_tick(a@.take(i as int), t) + with_tick(b@.take(j as int), t),
        decreases a.len() + b.len() - i - j,
    {
        if j >= b.len() || (i < a.len() && a[i].tick <= b[j].tick) {
            let x = a[i];
            proof {
                assert forall|t: u64| #[trigger] with_tick(res@.push(x), t) == with_tick(a@.take(i + 1), t) + with_tick(b@.take(j as int), t) by {
                    lemma_with_tick_push(res@, x, t);
                    assert(a@.take(i as int).push(x) =~= a@.take(i + 1));
                    lemma_with_tick_push(a@.take(i as int), x, t);
                    if x.tick == t {
                        lemma_with_tick_absent(b@.take(j as int), t);
                    }
                }
            }
            res.push(x);
            i = i + 1;
        } else {
            let x = b[j];
            proof {
                assert forall|t: u64| #[trigger] with_tick(res@.push(x), t) == with_tick(a@.take(i as int), t) + with_tick(b@.take(j + 1), t) by {
                    lemma_with_tick_push(res@, x, t);
                    assert(b@.take(j as int).push(x) =~= b@.take(j + 1));
                    lemma_with_tick_push(b@.take(j as int), x, t);
                }
            }
            res.push(x);
            j = j + 1;
        }
    }
    proof {
        assert(a@.take(i as int) =~= a@);
        assert(b@.take(j as int) =~= b@);
        assert forall|t: u64| #[trigger] with_tick(res@, t) == with_tick(a@ + b@, t) by {
            lemma_with_tick_concat(a@, b@, t);
        }
    }
    res
}

/// Stably sorts the concatenation of tick-ordered runs, merging them pairwise.
pub fn merge_runs(runs: Vec<Vec<MidiEvent>>) -> (res: Vec<MidiEvent>)
    requires
        forall|k: int| 0 <= k < runs@.len() ==> sorted_by_tick(#[trigger] runs@[k]@),
    ensures
        is_stable_tick_sort(res@, concat_runs(runs@)),
{
    let ghost orig = runs@;
    let mut cur = runs;
    while cur.len() > 1
        invariant
            forall|k: int| 0 <= k < cur@.len() ==> sorted_by_tick(#[trigger] cur@[k]@),
            forall|t: u64| #[trigger] with_tick(concat_runs(cur@), t) == with_tick(concat_runs(orig), t),
        decreases cur.len(),
    {
        let mut next: Vec<Vec<MidiEvent>> = Vec::new();
        let mut i: usize = 0;
        let empty: Vec<MidiEvent> = Vec::new();
        while i < cur.len()
            invariant
                i <= cur@.len(),
                cur@.len() > 1,
                2 * next@.len() <= i + 1,
                i % 2 == 0 || i == cur@.len(),
                empty@.len() == 0,
                forall|k: int| 0 <= k < cur@.len() ==> sorted_by_tick(#[trigger] cur@[k]@),
                forall|k: int| 0 <= k < next@.len() ==> sorted_by_tick(#[trigger] next@[k]@),
                forall|t: u64| #[trigger] with_tick(concat_runs(next@), t) == with_tick(concat_runs(cur@.take(i as int)), t),
            decreases cur.len() - i,
        {
            let ghost old_next = next@;
            if i + 1 < cur.len() {
                let m = merge_by_tick(&cur[i], &cur[i + 1]);
                next.push(m);
                proof {
                    assert(next@.drop_last() =~= old_next);
                    lemma_concat_runs_take(cur@, i as int);
                    lemma_concat_runs_take(cur@, i + 1);
                    assert forall|t: u64| #[trigger] with_tick(concat_runs(next@), t) == with_tick(concat_runs(cur@.take(i + 2)), t) by {
                        lemma_with_tick_concat(concat_runs(old_next), m@, t);
                        lemma_with_tick_concat(cur@[i as int]@, cur@[i + 1]@, t);
                        lemma_with_tick_concat(concat_runs(cur@.take(i as int)), cur@[i as int]@, t);
                        lemma_with_tick_concat(concat_runs(cur@.take(i + 1)), cur@[i + 1]@, t);
                    }
                }
                i = i + 2;
            } else {
                let m = merge_by_tick(&cur[i], &empty);
                next.push(m);
                proof {
                    assert(cur@[i as int]@ + empty@ =~= cur@[i as int]@);
                    assert(next@.drop_last() =~= old_next);
                    lemma_concat_runs_take(cur@, i as int);
                    assert forall|t: u64| #[trigger] with_tick(concat_runs(next@), t) == with_tick(concat_runs(cur@.take(i + 1)), t) by {
                        lemma_with_tick_concat(concat_runs(old_next), m@, t);
                        lemma_with_tick_concat(concat_runs(cur@.take(i as int)), cur@[i as int]@, t);
                    }
                }
                i = i + 1;
            }
        }
        proof {
            assert(cur@.take(i as int) =~= cur@);
        }
        cur = next;
    }
    if cur.len() == 0 {
        let res: Vec<MidiEvent> = Vec::new();
        proof {
            assert(concat_runs(cur@) =~= Seq::<MidiEvent>::empty());
            assert(res@ =~= Seq::<MidiEvent>::empty());
            assert forall|t: u64| #[trigger] with_tick(res@, t) == with_tick(concat_runs(orig), t) by {
                assert(with_tick(res@, t) =~= Seq::<MidiEvent>::empty());
            }
        }
        res
    } else {
        let ghost before = cur@;
        let r = cur.pop().unwrap();
        proof {
            assert(before.len() == 1);
            assert(before[0] == r);
            assert(before.drop_last() =~= Seq::<Vec<MidiEvent>>::empty());
            assert(concat_runs(before.drop_last()) =~= Seq::<MidiEvent>::empty());
            assert(concat_runs(before) =~= r@);
            assert(sorted_by_tick(before[0]@));
        }
        r
    }
}

proof fn lemma_with_tick_contains(s: Seq<MidiEvent>, x: MidiEvent)
    ensures
        s.contains(x) <==> with_tick(s, x.tick).contains(x),
    decreases s.len(),
{
    if s.len() > 0 {
        let s0 = s.drop_last();
        lemma_with_tick_contains(s0, x);
        assert(s =~= s0.push(s.last()));
        if s.contains(x) {
            let k = choose|k: int| 0 <= k < s.len() && s[k] == x;
            if k < s.len() - 1 {
                assert(s0[k] == x);
                let w = with_tick(s0, x.tick);
                let j = choose|j: int| 0 <= j < w.len() && w[j] == x;
                assert(with_tick(s, x.tick)[j] == x);
            } else {
                assert(with_tick(s, x.tick).last() == x);
            }
        }
        if with_tick(s, x.tick).contains(x) {
            let w = with_tick(s, x.tick);
            let j = choose|j: int| 0 <= j < w.len() && w[j] == x;
            if j < with_tick(s0, x.tick).len() {
                assert(with_tick(s0, x.tick)[j] == x);
                let k = choose|k: int| 0 <= k < s0.len() && s0[k] == x;
                assert(s[k] == x);
            } else {
                assert(s.last() == x);
                assert(s[s.len() - 1] == x);
            }
        }
    }
}

/// A stable sort by tick neither loses nor invents events: an event occurs in
/// the sorted list exactly when it occurs in the input.
pub proof fn law_sort_keeps_events(out: Seq<MidiEvent>, input: Seq<MidiEvent>, x: MidiEvent)
    requires
        is_stable_tick_sort(out, input),
    ensures
        out.contains(x) <==> input.contains(x),
{
    lemma_with_tick_contains(out, x);
    lemma_with_tick_contains(input, x);
    assert(with_tick(out, x.tick) == with_tick(input, x.tick));
}

} // verus!
