//! Merging runs: of every key the youngest run that holds it decides the
//! value, and the result is one run in ascending order.

use crate::algorithm::{ascending_entries, strictly_ascending};
use crate::sst_util::{holds_key, lemma_lookup_at, lookup};
use crate::types::{Entry, Key, Value, TOMBSTONE_VALUE};
use vstd::prelude::*;

verus! {

/// The value of `key` in the youngest of `runs` that holds it; a run with a
/// higher index is younger.
pub open spec fn newest_value(runs: Seq<Seq<Entry>>, key: Key) -> Option<Value>
    decreases runs.len(),
{
    if runs.len() == 0 {
        None
    } else {
        match lookup(runs.last(), key) {
            Some(value) => Some(value),
            None => newest_value(runs.drop_last(), key),
        }
    }
}

/// Whether a merge keeps an entry with this value: tombstones go where
/// they are to be discarded.
pub open spec fn kept(value: Value, discard_tombstones: bool) -> bool {
    !discard_tombstones || value != TOMBSTONE_VALUE
}

/// `merged` is the merge of `runs`: in strictly ascending order, it holds
/// for every key of the runs the value of the youngest run that holds the
/// key, unless that value is a tombstone to discard, and nothing else.
pub open spec fn is_merge(runs: Seq<Seq<Entry>>, discard_tombstones: bool, merged: Seq<Entry>) -> bool {
    &&& strictly_ascending(merged)
    &&& forall|key: Key, value: Value| #[trigger]
        merged.contains((key, value)) <==> newest_value(runs, key) == Some(value) && kept(
            value,
            discard_tombstones,
        )
}

/// The merge of `runs`.
pub open spec fn merged(runs: Seq<Seq<Entry>>, discard_tombstones: bool) -> Seq<Entry> {
    choose|merged: Seq<Entry>| is_merge(runs, discard_tombstones, merged)
}

/// Every run is in strictly ascending order.
pub open spec fn all_ascending(runs: Seq<Seq<Entry>>) -> bool {
    forall|r: int| 0 <= r < runs.len() ==> strictly_ascending(#[trigger] runs[r])
}

/// Two sequences in strictly ascending order that hold the same entries
/// are the same sequence.
pub proof fn lemma_ascending_same_entries(a: Seq<Entry>, b: Seq<Entry>)
    requires
        strictly_ascending(a),
        strictly_ascending(b),
        forall|entry: Entry| a.contains(entry) <==> b.contains(entry),
    ensures
        a == b,
    decreases a.len(),
{
    if a.len() == 0 {
        if b.len() > 0 {
            assert(b.contains(b[0]));
            assert(a.contains(b[0]));
        }
        assert(a =~= b);
    } else {
        let top = a.last();
        assert(a.contains(top));
        assert(b.contains(top));
        let j = choose|j: int| 0 <= j < b.len() && b[j] == top;
        assert(b.contains(b.last()));
        assert(a.contains(b.last()));
        let i = choose|i: int| 0 <= i < a.len() && a[i] == b.last();
        if j < b.len() - 1 {
            assert(b[j].0 < b.last().0);
            if i < a.len() - 1 {
                assert(a[i].0 < a.last().0);
            }
            assert(false);
        }
        let fa = a.drop_last();
        let fb = b.drop_last();
        assert forall|entry: Entry| fa.contains(entry) <==> fb.contains(entry) by {
            if fa.contains(entry) {
                let x = choose|x: int| 0 <= x < fa.len() && fa[x] == entry;
                assert(a[x] == entry);
                assert(a.contains(entry));
                assert(b.contains(entry));
                let y = choose|y: int| 0 <= y < b.len() && b[y] == entry;
                if y == b.len() - 1 {
                    assert(a[x].0 < a.last().0);
                }
                assert(fb[y] == entry);
            }
            if fb.contains(entry) {
                let y = choose|y: int| 0 <= y < fb.len() && fb[y] == entry;
                assert(b[y] == entry);
                assert(b.contains(entry));
                assert(a.contains(entry));
                let x = choose|x: int| 0 <= x < a.len() && a[x] == entry;
                if x == a.len() - 1 {
                    assert(b[y].0 < b.last().0);
                }
                assert(fa[x] == entry);
            }
        }
        lemma_ascending_same_entries(fa, fb);
        assert(a =~= fa.push(top));
        assert(b =~= fb.push(top));
    }
}

/// There is one merge only: whatever is a merge of the runs is `merged`.
pub proof fn lemma_merge_is_unique(runs: Seq<Seq<Entry>>, discard_tombstones: bool, result: Seq<Entry>)
    requires
        is_merge(runs, discard_tombstones, result),
    ensures
        merged(runs, discard_tombstones) == result,
{
    let other = merged(runs, discard_tombstones);
    assert(is_merge(runs, discard_tombstones, other));
    assert forall|entry: Entry| other.contains(entry) <==> result.contains(entry) by {
        let (key, value) = entry;
        assert(entry == (key, value));
    }
    lemma_ascending_same_entries(other, result);
}

/// Where no run holds a key, the key has no value.
pub proof fn lemma_newest_none(runs: Seq<Seq<Entry>>, key: Key)
    requires
        forall|r: int| 0 <= r < runs.len() ==> !holds_key(#[trigger] runs[r], key),
    ensures
        newest_value(runs, key) is None,
    decreases runs.len(),
{
    if runs.len() > 0 {
        assert(!holds_key(runs.last(), key));
        let front = runs.drop_last();
        assert forall|r: int| 0 <= r < front.len() implies !holds_key(#[trigger] front[r], key) by {
            assert(front[r] == runs[r]);
        }
        lemma_newest_none(front, key);
    }
}

/// Where run `top` holds a key and no younger run does, run `top` decides
/// its value.
pub proof fn lemma_newest_at(runs: Seq<Seq<Entry>>, key: Key, top: int)
    requires
        0 <= top < runs.len(),
        holds_key(runs[top], key),
        forall|r: int| top < r < runs.len() ==> !holds_key(#[trigger] runs[r], key),
    ensures
        newest_value(runs, key) == lookup(runs[top], key),
    decreases runs.len(),
{
    if top < runs.len() - 1 {
        assert(!holds_key(runs.last(), key));
        let front = runs.drop_last();
        assert(front[top] == runs[top]);
        assert forall|r: int| top < r < front.len() implies !holds_key(#[trigger] front[r], key) by {
            assert(front[r] == runs[r]);
        }
        lemma_newest_at(front, key, top);
    }
}

/// The merge of a single run that keeps tombstones is the run itself.
pub proof fn lemma_merge_of_one(run: Seq<Entry>)
    requires
        strictly_ascending(run),
    ensures
        merged(seq![run], false) == run,
{
    let runs = seq![run];
    assert forall|key: Key, value: Value| #[trigger]
        run.contains((key, value)) <==> newest_value(runs, key) == Some(value) && kept(
            value,
            false,
        ) by {
        assert(runs.last() == run);
        assert(runs.drop_last().len() == 0);
        reveal_with_fuel(newest_value, 3);
        assert(newest_value(runs, key) == lookup(run, key));
        if run.contains((key, value)) {
            let i = choose|i: int| 0 <= i < run.len() && run[i] == (key, value);
            lemma_lookup_at(run, i);
        }
        if lookup(run, key) == Some(value) {
            let i = choose|i: int| 0 <= i < run.len() && (#[trigger] run[i]).0 == key;
            assert(run[i] == (key, value));
        }
    }
    lemma_merge_is_unique(runs, false, run);
}

/// Number of entries that are still to be taken from the runs, of which
/// `next[r]` were taken from run `r`.
pub open spec fn pending(runs: Seq<Seq<Entry>>, next: Seq<usize>) -> int
    decreases runs.len(),
{
    if runs.len() == 0 || next.len() != runs.len() {
        0
    } else {
        pending(runs.drop_last(), next.drop_last()) + runs.last().len() - next.last()
    }
}

pub proof fn lemma_pending_step(runs: Seq<Seq<Entry>>, next: Seq<usize>, r: int, more: usize)
    requires
        next.len() == runs.len(),
        0 <= r < runs.len(),
        more == next[r] + 1,
    ensures
        pending(runs, next.update(r, more)) == pending(runs, next) - 1,
    decreases runs.len(),
{
    let after = next.update(r, more);
    if r == runs.len() - 1 {
        assert(after.drop_last() =~= next.drop_last());
    } else {
        assert(after.drop_last() =~= next.drop_last().update(r, more));
        lemma_pending_step(runs.drop_last(), next.drop_last(), r, more);
    }
}

pub proof fn lemma_pending_nonnegative(runs: Seq<Seq<Entry>>, next: Seq<usize>)
    requires
        next.len() == runs.len(),
        forall|r: int| 0 <= r < runs.len() ==> (#[trigger] next[r]) <= runs[r].len(),
    ensures
        pending(runs, next) >= 0,
    decreases runs.len(),
{
    if runs.len() > 0 {
        lemma_pending_nonnegative(runs.drop_last(), next.drop_last());
    }
}

/// Number of entries that are still to be taken from runs of `counts`
/// entries, of which `next[r]` were taken from run `r`.
pub open spec fn left_over(counts: Seq<usize>, next: Seq<usize>) -> int
    decreases counts.len(),
{
    if counts.len() == 0 || next.len() != counts.len() {
        0
    } else {
        left_over(counts.drop_last(), next.drop_last()) + counts.last() - next.last()
    }
}

/// Taking one entry more leaves one entry less.
pub proof fn lemma_left_over_step(counts: Seq<usize>, next: Seq<usize>, r: int, more: usize)
    requires
        next.len() == counts.len(),
        0 <= r < counts.len(),
        more == next[r] + 1,
    ensures
        left_over(counts, next.update(r, more)) == left_over(counts, next) - 1,
    decreases counts.len(),
{
    let after = next.update(r, more);
    if r == counts.len() - 1 {
        assert(after.drop_last() =~= next.drop_last());
    } else {
        assert(after.drop_last() =~= next.drop_last().update(r, more));
        lemma_left_over_step(counts.drop_last(), next.drop_last(), r, more);
    }
}

/// No fewer than no entries are left over.
pub proof fn lemma_left_over_nonnegative(counts: Seq<usize>, next: Seq<usize>)
    requires
        next.len() == counts.len(),
        forall|r: int| 0 <= r < counts.len() ==> (#[trigger] next[r]) <= counts[r],
    ensures
        left_over(counts, next) >= 0,
    decreases counts.len(),
{
    if counts.len() > 0 {
        lemma_left_over_nonnegative(counts.drop_last(), next.drop_last());
    }
}

/// The views of the runs.
pub open spec fn runs_view(runs: Seq<Vec<Entry>>) -> Seq<Seq<Entry>> {
    Seq::new(runs.len(), |r: int| runs[r]@)
}

/// Everything up to `limit` is settled: `out` holds exactly the merged
/// entries with keys up to `limit`.
pub open spec fn settled(
    runs: Seq<Seq<Entry>>,
    discard_tombstones: bool,
    out: Seq<Entry>,
    limit: Key,
) -> bool {
    &&& forall|i: int| 0 <= i < out.len() ==> (#[trigger] out[i]).0 <= limit
    &&& forall|key: Key, value: Value|
        key <= limit ==> (#[trigger] out.contains((key, value)) <==> newest_value(runs, key) == Some(
            value,
        ) && kept(value, discard_tombstones))
}

/// Of every run, the entries taken so far have keys up to `limit`, and the
/// others have keys from `limit` on.
pub open spec fn split_at(runs: Seq<Seq<Entry>>, next: Seq<usize>, limit: Key) -> bool {
    forall|r: int, j: int|
        0 <= r < runs.len() && 0 <= j < runs[r].len() ==> if j < next[r] {
            (#[trigger] runs[r][j]).0 <= limit
        } else {
            runs[r][j].0 >= limit
        }
}

/// Merges `runs`, of which a run with a higher index is younger, into one
/// run: for every key the value of the youngest run that holds it. With
/// `discard_tombstones`, keys whose value is the tombstone are left out.
pub fn merge_runs(runs: &Vec<Vec<Entry>>, discard_tombstones: bool) -> (out: Vec<Entry>)
    requires
        all_ascending(runs_view(runs@)),
    ensures
        is_merge(runs_view(runs@), discard_tombstones, out@),
        out@ == merged(runs_view(runs@), discard_tombstones),
{
    let ghost all = runs_view(runs@);
    let count: usize = runs.len();
    let mut next: Vec<usize> = Vec::new();
    while next.len() < count
        invariant
            next@.len() <= count,
            forall|r: int| 0 <= r < next@.len() ==> (#[trigger] next@[r]) == 0,
        decreases count - next@.len(),
    {
        next.push(0);
    }
    let mut out: Vec<Entry> = Vec::new();
    let mut recent_key: Option<Key> = None;
    proof {
        lemma_pending_nonnegative(all, next@);
    }
    loop
        invariant
            all == runs_view(runs@),
            all_ascending(all),
            count == runs@.len(),
            next@.len() == count,
            forall|r: int| 0 <= r < count ==> (#[trigger] next@[r]) <= all[r].len(),
            strictly_ascending(out@),
            recent_key is None ==> out@.len() == 0 && forall|r: int|
                0 <= r < count ==> (#[trigger] next@[r]) == 0,
            recent_key is Some ==> settled(all, discard_tombstones, out@, recent_key.unwrap())
                && split_at(all, next@, recent_key.unwrap()),
            pending(all, next@) >= 0,
        ensures
            forall|r: int| 0 <= r < count ==> (#[trigger] next@[r]) == all[r].len(),
        decreases pending(all, next@),
    {
        let mut best: Option<usize> = None;
        let mut r: usize = 0;
        while r < count
            invariant
                all == runs_view(runs@),
                count == runs@.len(),
                next@.len() == count,
                forall|q: int| 0 <= q < count ==> (#[trigger] next@[q]) <= all[q].len(),
                0 <= r <= count,
                match best {
                    Some(b) => b < r && next@[b as int] < all[b as int].len() && forall|q: int|
                        0 <= q < r && (#[trigger] next@[q]) < all[q].len() ==> {
                            let mine = all[b as int][next@[b as int] as int].0;
                            let theirs = all[q][next@[q] as int].0;
                            theirs > mine || (theirs == mine && q <= b)
                        },
                    None => forall|q: int| 0 <= q < r ==> (#[trigger] next@[q]) == all[q].len(),
                },
            decreases count - r,
        {
            assert(all[r as int] == runs@[r as int]@);
            if next[r] < runs[r].len() {
                let key: Key = runs[r][next[r]].0;
                match best {
                    None => {
                        best = Some(r);
                    },
                    Some(b) => {
                        assert(all[b as int] == runs@[b as int]@);
                        if key <= runs[b][next[b]].0 {
                            best = Some(r);
                        }
                    },
                }
            }
            r += 1;
        }
        match best {
            None => {
                break ;
            },
            Some(b) => {
                assert(all[b as int] == runs@[b as int]@);
                let position: usize = next[b];
                // A position in a run is below its length, which can be counted.
                let run_len: usize = runs[b].len();
                let (key, value) = runs[b][position];
                let ghost before = next@;
                next[b] = position + 1;
                proof {
                    assert(next@ == before.update(b as int, (position + 1) as usize));
                    lemma_pending_step(all, before, b as int, (position + 1) as usize);
                    lemma_pending_nonnegative(all, next@);
                    assert(strictly_ascending(all[b as int]));
                    // Every remaining entry has a key from `key` on.
                    assert forall|q: int, j: int|
                        0 <= q < count && before[q] <= j < all[q].len() implies (
                    #[trigger] all[q][j]).0 >= key by {
                        assert(strictly_ascending(all[q]));
                        let head = all[q][before[q] as int];
                        assert(head.0 >= key);
                        if j > before[q] {
                            assert(head.0 < all[q][j].0);
                        }
                    }
                }
                let seen: bool = match recent_key {
                    Some(recent) => recent == key,
                    None => false,
                };
                if seen {
                    proof {
                        let limit = recent_key.unwrap();
                        assert forall|q: int, j: int|
                            0 <= q < count && 0 <= j < all[q].len() implies if j < next@[q] {
                            (#[trigger] all[q][j]).0 <= limit
                        } else {
                            all[q][j].0 >= limit
                        } by {
                            if q == b && j == position {
                            } else if j < before[q] {
                                assert(all[q][j].0 <= limit);
                            }
                        }
                    }
                } else {
                    proof {
                        // No entry that was taken before carries `key`.
                        if recent_key is Some {
                            let limit = recent_key.unwrap();
                            assert(all[b as int][position as int].0 >= limit);
                            assert(key > limit);
                        }
                        assert forall|q: int, j: int|
                            0 <= q < count && 0 <= j < all[q].len() && (#[trigger] all[q][j]).0
                                == key implies j == before[q] && q <= b by {
                            assert(strictly_ascending(all[q]));
                            if j < before[q] {
                                assert(recent_key is Some);
                                assert(all[q][j].0 <= recent_key.unwrap());
                            }
                            let head = all[q][before[q] as int];
                            if j > before[q] {
                                assert(head.0 < all[q][j].0);
                                assert(head.0 >= key);
                            }
                        }
                        assert(holds_key(all[b as int], key));
                        assert forall|q: int| b < q < count implies !holds_key(#[trigger] all[q], key) by {
                            if holds_key(all[q], key) {
                                let j = choose|j: int| 0 <= j < all[q].len() && (#[trigger] all[q][j]).0 == key;
                                assert(q <= b);
                            }
                        }
                        lemma_newest_at(all, key, b as int);
                        lemma_lookup_at(all[b as int], position as int);
                        assert(newest_value(all, key) == Some(value));
                    }
                    let ghost earlier = out@;
                    if !discard_tombstones || value != TOMBSTONE_VALUE {
                        out.push((key, value));
                    }
                    proof {
                        let now = out@;
                        assert forall|i: int| 0 <= i < earlier.len() implies (#[trigger] earlier[i]).0
                            < key by {
                            assert(recent_key is Some);
                        }
                        assert(strictly_ascending(now));
                        assert forall|i: int| 0 <= i < now.len() implies (#[trigger] now[i]).0 <= key by {
                            if i < earlier.len() {
                                assert(now[i] == earlier[i]);
                            }
                        }
                        assert forall|k: Key, v: Value| k <= key implies (#[trigger] now.contains(
                            (k, v),
                        ) <==> newest_value(all, k) == Some(v) && kept(v, discard_tombstones)) by {
                            if k == key {
                                if now.contains((k, v)) {
                                    let i = choose|i: int| 0 <= i < now.len() && now[i] == (k, v);
                                    if i < earlier.len() {
                                        assert(earlier[i].0 < key);
                                    }
                                }
                                if v == value && kept(v, discard_tombstones) {
                                    assert(now[now.len() - 1] == (k, v));
                                }
                            } else {
                                if now.contains((k, v)) {
                                    let i = choose|i: int| 0 <= i < now.len() && now[i] == (k, v);
                                    assert(earlier[i] == (k, v));
                                    assert(earlier.contains((k, v)));
                                }
                                if earlier.contains((k, v)) {
                                    let i = choose|i: int| 0 <= i < earlier.len() && earlier[i] == (k, v);
                                    assert(now[i] == (k, v));
                                }
                                if recent_key is Some && k <= recent_key.unwrap() {
                                } else {
                                    // A key between the last one and this one is in no run.
                                    assert(!earlier.contains((k, v))) by {
                                        if earlier.contains((k, v)) {
                                            let i = choose|i: int|
                                                0 <= i < earlier.len() && earlier[i] == (k, v);
                                            assert(earlier[i].0 <= recent_key.unwrap());
                                        }
                                    }
                                    assert forall|q: int| 0 <= q < all.len() implies !holds_key(
                                        #[trigger] all[q],
                                        k,
                                    ) by {
                                        if holds_key(all[q], k) {
                                            let j = choose|j: int|
                                                0 <= j < all[q].len() && (#[trigger] all[q][j]).0 == k;
                                            if j < before[q] {
                                                assert(all[q][j].0 <= recent_key.unwrap());
                                            } else {
                                                assert(all[q][j].0 >= key);
                                            }
                                        }
                                    }
                                    lemma_newest_none(all, k);
                                }
                            }
                        }
                        assert forall|q: int, j: int|
                            0 <= q < count && 0 <= j < all[q].len() implies if j < next@[q] {
                            (#[trigger] all[q][j]).0 <= key
                        } else {
                            all[q][j].0 >= key
                        } by {
                            if q == b && j == position {
                            } else if j < before[q] {
                                assert(recent_key is Some);
                                assert(all[q][j].0 <= recent_key.unwrap());
                            }
                        }
                    }
                    recent_key = Some(key);
                }
            },
        }
    }
    proof {
        assert forall|key: Key, value: Value| #[trigger]
            out@.contains((key, value)) <==> newest_value(all, key) == Some(value) && kept(
                value,
                discard_tombstones,
            ) by {
            if recent_key is Some && key <= recent_key.unwrap() {
            } else {
                if out@.contains((key, value)) {
                    let i = choose|i: int| 0 <= i < out@.len() && out@[i] == (key, value);
                    assert(out@[i].0 <= recent_key.unwrap());
                }
                assert forall|q: int| 0 <= q < all.len() implies !holds_key(#[trigger] all[q], key) by {
                    if holds_key(all[q], key) {
                        let j = choose|j: int| 0 <= j < all[q].len() && (#[trigger] all[q][j]).0 == key;
                        assert(j < next@[q]);
                        assert(recent_key is Some);
                        assert(all[q][j].0 <= recent_key.unwrap());
                    }
                }
                lemma_newest_none(all, key);
            }
        }
        lemma_merge_is_unique(all, discard_tombstones, out@);
    }
    out
}

/// All entries of the lists, list after list.
pub open spec fn joined(lists: Seq<Seq<Entry>>) -> Seq<Entry>
    decreases lists.len(),
{
    if lists.len() == 0 {
        Seq::empty()
    } else {
        joined(lists.drop_last()) + lists.last()
    }
}

/// The entries that were taken from the lists, of which the first
/// `next[r]` were taken from list `r`.
pub open spec fn taken(lists: Seq<Seq<Entry>>, next: Seq<usize>) -> Seq<Entry>
    decreases lists.len(),
{
    if lists.len() == 0 || next.len() != lists.len() {
        Seq::empty()
    } else {
        taken(lists.drop_last(), next.drop_last()) + lists.last().take(next.last() as int)
    }
}

/// Every list has ascending keys; a key may occur more than once.
pub open spec fn all_ascending_by_key(lists: Seq<Seq<Entry>>) -> bool {
    forall|r: int| 0 <= r < lists.len() ==> ascending_entries(#[trigger] lists[r])
}

/// Taking one entry more from a list adds that entry to what was taken.
pub proof fn lemma_taken_step(lists: Seq<Seq<Entry>>, next: Seq<usize>, r: int, more: usize)
    requires
        next.len() == lists.len(),
        0 <= r < lists.len(),
        next[r] < lists[r].len(),
        more == next[r] + 1,
    ensures
        taken(lists, next.update(r, more)).to_multiset() == taken(lists, next).to_multiset().insert(
            lists[r][next[r] as int],
        ),
    decreases lists.len(),
{
    let after = next.update(r, more);
    let front = taken(lists.drop_last(), next.drop_last());
    let last = lists.last();
    let entry = lists[r][next[r] as int];
    if r == lists.len() - 1 {
        assert(after.drop_last() =~= next.drop_last());
        let part = last.take(next.last() as int);
        assert(last.take(more as int) =~= part.push(entry));
        assert(front + part.push(entry) =~= (front + part).push(entry));
        vstd::seq_lib::to_multiset_build(front + part, entry);
    } else {
        assert(after.drop_last() =~= next.drop_last().update(r, more));
        lemma_taken_step(lists.drop_last(), next.drop_last(), r, more);
        let moved = taken(lists.drop_last(), after.drop_last());
        let part = last.take(next.last() as int);
        vstd::seq_lib::lemma_multiset_commutative(front, part);
        vstd::seq_lib::lemma_multiset_commutative(moved, part);
        assert(moved.to_multiset().add(part.to_multiset()) =~= front.to_multiset().add(
            part.to_multiset(),
        ).insert(entry));
    }
}

/// Where every list was taken whole, all entries were taken.
pub proof fn lemma_taken_all(lists: Seq<Seq<Entry>>, next: Seq<usize>)
    requires
        next.len() == lists.len(),
        forall|r: int| 0 <= r < lists.len() ==> (#[trigger] next[r]) == lists[r].len(),
    ensures
        taken(lists, next) == joined(lists),
    decreases lists.len(),
{
    if lists.len() > 0 {
        lemma_taken_all(lists.drop_last(), next.drop_last());
        assert(lists.last().take(next.last() as int) =~= lists.last());
    }
}

/// Where nothing was taken from any list, nothing was taken.
pub proof fn lemma_taken_none(lists: Seq<Seq<Entry>>, next: Seq<usize>)
    requires
        next.len() == lists.len(),
        forall|r: int| 0 <= r < lists.len() ==> (#[trigger] next[r]) == 0,
    ensures
        taken(lists, next) == Seq::<Entry>::empty(),
    decreases lists.len(),
{
    if lists.len() > 0 {
        lemma_taken_none(lists.drop_last(), next.drop_last());
        assert(taken(lists, next) =~= Seq::<Entry>::empty());
    }
}

/// Merges lists of entries with ascending keys into one list with
/// ascending keys that holds every entry of every list, as often as the
/// lists hold it. Of the entries at the heads of the lists the one with
/// the smallest key is taken next.
pub fn merge_k_sorted_lists(lists: Vec<Vec<Entry>>) -> (merged_list: Vec<Entry>)
    requires
        all_ascending_by_key(runs_view(lists@)),
    ensures
        ascending_entries(merged_list@),
        merged_list@.to_multiset() == joined(runs_view(lists@)).to_multiset(),
{
    let ghost all = runs_view(lists@);
    let count: usize = lists.len();
    let mut next: Vec<usize> = Vec::new();
    while next.len() < count
        invariant
            next@.len() <= count,
            forall|r: int| 0 <= r < next@.len() ==> (#[trigger] next@[r]) == 0,
        decreases count - next@.len(),
    {
        next.push(0);
    }
    let mut out: Vec<Entry> = Vec::new();
    proof {
        lemma_pending_nonnegative(all, next@);
        lemma_taken_none(all, next@);
    }
    loop
        invariant
            all == runs_view(lists@),
            all_ascending_by_key(all),
            count == lists@.len(),
            next@.len() == count,
            forall|r: int| 0 <= r < count ==> (#[trigger] next@[r]) <= all[r].len(),
            ascending_entries(out@),
            out@.to_multiset() == taken(all, next@).to_multiset(),
            forall|i: int, r: int, j: int|
                #![trigger out@[i], all[r][j]]
                0 <= i < out@.len() && 0 <= r < count && next@[r] <= j < all[r].len() ==> out@[i].0
                    <= all[r][j].0,
            pending(all, next@) >= 0,
        ensures
            forall|r: int| 0 <= r < count ==> (#[trigger] next@[r]) == all[r].len(),
        decreases pending(all, next@),
    {
        let mut best: Option<usize> = None;
        let mut r: usize = 0;
        while r < count
            invariant
                all == runs_view(lists@),
                count == lists@.len(),
                next@.len() == count,
                forall|q: int| 0 <= q < count ==> (#[trigger] next@[q]) <= all[q].len(),
                0 <= r <= count,
                match best {
                    Some(b) => b < r && next@[b as int] < all[b as int].len() && forall|q: int|
                        0 <= q < r && (#[trigger] next@[q]) < all[q].len() ==> all[b as int][next@[b as int] as int].0
                            <= all[q][next@[q] as int].0,
                    None => forall|q: int| 0 <= q < r ==> (#[trigger] next@[q]) == all[q].len(),
                },
            decreases count - r,
        {
            assert(all[r as int] == lists@[r as int]@);
            if next[r] < lists[r].len() {
                let key: Key = lists[r][next[r]].0;
                match best {
                    None => {
                        best = Some(r);
                    },
                    Some(b) => {
                        assert(all[b as int] == lists@[b as int]@);
                        if key < lists[b][next[b]].0 {
                            best = Some(r);
                        }
                    },
                }
            }
            r += 1;
        }
        match best {
            None => {
                break ;
            },
            Some(b) => {
                assert(all[b as int] == lists@[b as int]@);
                let position: usize = next[b];
                // A position in a list is below its length, which can be counted.
                let list_len: usize = lists[b].len();
                let entry: Entry = lists[b][position];
                let ghost before = next@;
                let ghost earlier = out@;
                next[b] = position + 1;
                out.push(entry);
                proof {
                    assert(next@ == before.update(b as int, (position + 1) as usize));
                    lemma_pending_step(all, before, b as int, (position + 1) as usize);
                    lemma_taken_step(all, before, b as int, (position + 1) as usize);
                    vstd::seq_lib::to_multiset_build(earlier, entry);
                    // The head that was taken is not above what is left in any list.
                    assert forall|q: int, j: int|
                        0 <= q < count && before[q] <= j < all[q].len() implies entry.0 <= (
                    #[trigger] all[q][j]).0 by {
                        assert(ascending_entries(all[q]));
                        assert(all[q][before[q] as int].0 <= all[q][j].0);
                    }
                    assert forall|i: int, k: int| 0 <= i <= k < out@.len() implies out@[i].0
                        <= out@[k].0 by {
                        if k < earlier.len() {
                            assert(earlier[i].0 <= earlier[k].0);
                        } else if i < earlier.len() {
                            let head = all[b as int][position as int];
                            assert(earlier[i].0 <= head.0);
                        }
                    }
                    assert forall|i: int, q: int, j: int|
                        #![trigger out@[i], all[q][j]]
                        0 <= i < out@.len() && 0 <= q < count && next@[q] <= j < all[q].len() implies out@[i].0
                        <= all[q][j].0 by {
                        if i < earlier.len() {
                            assert(earlier[i].0 <= all[q][j].0);
                        }
                    }
                    lemma_pending_nonnegative(all, next@);
                }
            },
        }
    }
    proof {
        lemma_taken_all(all, next@);
    }
    out
}

/// Taking the entry of the smallest key at the heads of the runs, of the
/// youngest run that has it, and writing it out unless it is a tombstone
/// to discard, settles everything up to its key.
pub proof fn lemma_emitted(
    all: Seq<Seq<Entry>>,
    discard_tombstones: bool,
    earlier: Seq<Entry>,
    now: Seq<Entry>,
    before: Seq<usize>,
    next: Seq<usize>,
    recent_key: Option<Key>,
    key: Key,
    value: Value,
    b: int,
    position: int,
)
    requires
        0 <= b < all.len(),
        before.len() == all.len(),
        position == before[b],
        0 <= position < all[b].len(),
        next == before.update(b, (position + 1) as usize),
        position + 1 <= usize::MAX,
        all[b][position] == (key, value),
        forall|r: int| 0 <= r < all.len() ==> (#[trigger] before[r]) <= all[r].len(),
        forall|r: int| 0 <= r < all.len() ==> strictly_ascending(#[trigger] all[r]),
        strictly_ascending(earlier),
        recent_key is None ==> earlier.len() == 0 && forall|r: int|
            0 <= r < all.len() ==> (#[trigger] before[r]) == 0,
        recent_key is Some ==> settled(all, discard_tombstones, earlier, recent_key.unwrap())
            && split_at(all, before, recent_key.unwrap()) && key > recent_key.unwrap(),
        forall|q: int, j: int|
            0 <= q < all.len() && before[q] <= j < all[q].len() ==> (#[trigger] all[q][j]).0 >= key,
        newest_value(all, key) == Some(value),
        now == if kept(value, discard_tombstones) {
            earlier.push((key, value))
        } else {
            earlier
        },
    ensures
        strictly_ascending(now),
        settled(all, discard_tombstones, now, key),
        split_at(all, next, key),
{
    assert forall|i: int| 0 <= i < earlier.len() implies (#[trigger] earlier[i]).0 < key by {
        assert(recent_key is Some);
    }
    assert forall|i: int, j: int| 0 <= i < j < now.len() implies now[i].0 < now[j].0 by {
        if j < earlier.len() {
            assert(earlier[i].0 < earlier[j].0);
        } else {
            assert(now[i] == earlier[i]);
        }
    }
    assert forall|i: int| 0 <= i < now.len() implies (#[trigger] now[i]).0 <= key by {
        if i < earlier.len() {
            assert(now[i] == earlier[i]);
        }
    }
    assert forall|k: Key, v: Value| k <= key implies (#[trigger] now.contains((k, v)) <==> newest_value(
        all,
        k,
    ) == Some(v) && kept(v, discard_tombstones)) by {
        if k == key {
            if now.contains((k, v)) {
                let i = choose|i: int| 0 <= i < now.len() && now[i] == (k, v);
                if i < earlier.len() {
                    assert(earlier[i].0 < key);
                }
            }
            if v == value && kept(v, discard_tombstones) {
                assert(now[now.len() - 1] == (k, v));
            }
        } else {
            if now.contains((k, v)) {
                let i = choose|i: int| 0 <= i < now.len() && now[i] == (k, v);
                assert(earlier[i] == (k, v));
                assert(earlier.contains((k, v)));
            }
            if earlier.contains((k, v)) {
                let i = choose|i: int| 0 <= i < earlier.len() && earlier[i] == (k, v);
                assert(now[i] == (k, v));
            }
            if recent_key is Some && k <= recent_key.unwrap() {
            } else {
                assert(!earlier.contains((k, v))) by {
                    if earlier.contains((k, v)) {
                        let i = choose|i: int| 0 <= i < earlier.len() && earlier[i] == (k, v);
                        assert(earlier[i].0 <= recent_key.unwrap());
                    }
                }
                assert forall|q: int| 0 <= q < all.len() implies !holds_key(#[trigger] all[q], k) by {
                    if holds_key(all[q], k) {
                        let j = choose|j: int| 0 <= j < all[q].len() && (#[trigger] all[q][j]).0 == k;
                        if j < before[q] {
                            assert(all[q][j].0 <= recent_key.unwrap());
                        } else {
                            assert(all[q][j].0 >= key);
                        }
                    }
                }
                lemma_newest_none(all, k);
            }
        }
    }
    assert forall|q: int, j: int| 0 <= q < all.len() && 0 <= j < all[q].len() implies if j < next[q] {
        (#[trigger] all[q][j]).0 <= key
    } else {
        all[q][j].0 >= key
    } by {
        if q == b && j == position {
        } else if j < before[q] {
            assert(recent_key is Some);
            assert(all[q][j].0 <= recent_key.unwrap());
        }
    }
}

} // verus!
