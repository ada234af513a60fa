//! The receiving side of the pipeline: results arrive in any order, are
//! buffered by sequence number, and are handed onward strictly in
//! ascending, gapless order.
//!
//! The buffer is generic in its payload: ordering depends only on the
//! sequence key.  A result older than the delivery cursor is a stale
//! duplicate and is discarded without any state change; a result already
//! buffered is likewise ignored.

use vstd::prelude::*;

verus! {

/// Keys strictly ascend along the buffer.
pub open spec fn sorted_strict<T>(s: Seq<(u64, T)>) -> bool {
    forall|i: int, j: int| 0 <= i < j < s.len() ==> #[trigger] s[i].0 < #[trigger] s[j].0
}

/// Whether some buffered entry carries the key.
pub open spec fn contains_key<T>(s: Seq<(u64, T)>, key: u64) -> bool {
    exists|i: int| 0 <= i < s.len() && (#[trigger] s[i]).0 == key
}

/// Where a fresh key belongs in an ascending buffer: past every entry
/// with a smaller key.
pub open spec fn insert_position<T>(s: Seq<(u64, T)>, key: u64) -> int
    decreases s.len(),
{
    if s.len() == 0 {
        0
    } else if s[0].0 < key {
        1 + insert_position(s.skip(1), key)
    } else {
        0
    }
}

/// How many entries at the front of the buffer form a gapless run
/// starting at `next`: exactly the entries delivery drains.
pub open spec fn drain_count<T>(s: Seq<(u64, T)>, next: int) -> int
    decreases s.len(),
{
    if s.len() > 0 && s[0].0 == next {
        1 + drain_count(s.skip(1), next + 1)
    } else {
        0
    }
}

/// The buffer contents and cursor after one result is accepted: unchanged
/// for a stale or duplicate key, otherwise the key is inserted in order
/// and the gapless front run is drained.
pub open spec fn accept_state<T>(s: Seq<(u64, T)>, next: int, key: u64, val: T) -> (
    Seq<(u64, T)>,
    int,
) {
    if key < next || contains_key(s, key) {
        (s, next)
    } else {
        let merged = s.insert(insert_position(s, key), (key, val));
        let m = drain_count(merged, next);
        (merged.skip(m), next + m)
    }
}

/// The payloads delivered to the presenter by one accepted result, in
/// sequence order.
pub open spec fn accept_output<T>(s: Seq<(u64, T)>, next: int, key: u64, val: T) -> Seq<T> {
    if key < next || contains_key(s, key) {
        Seq::empty()
    } else {
        let merged = s.insert(insert_position(s, key), (key, val));
        let m = drain_count(merged, next);
        merged.subrange(0, m).map_values(|p: (u64, T)| p.1)
    }
}

/// Buffers out-of-order results and releases them strictly in sequence
/// order from `next_expected` upward.
pub struct Reassembler<T> {
    pub entries: Vec<(u64, T)>,
    pub next_expected: u64,
}

impl<T> Reassembler<T> {
    /// Entries ascend strictly, none is older than the cursor, and every
    /// key leaves room for the cursor to move past it.
    pub open spec fn wf(self) -> bool {
        &&& sorted_strict(self.entries@)
        &&& forall|p: int|
            0 <= p < self.entries@.len() ==> (#[trigger] self.entries@[p]).0
                >= self.next_expected
        &&& forall|p: int| 0 <= p < self.entries@.len() ==> (#[trigger] self.entries@[p]).0 < u64::MAX
    }

    pub fn new() -> (r: Reassembler<T>)
        ensures
            r.wf(),
            r.entries@.len() == 0,
            r.next_expected == 0,
    {
        Reassembler { entries: Vec::new(), next_expected: 0 }
    }

    /// Accepts the result numbered `number` and returns the payloads now
    /// deliverable, in sequence order.  A number below the cursor is a
    /// consumed duplicate: no payload is released and nothing changes.
    pub fn accept(&mut self, number: u64, payload: T) -> (out: Vec<T>)
        requires
            old(self).wf(),
            number < u64::MAX,
        ensures
            final(self).wf(),
            (final(self).entries@, final(self).next_expected as int) == accept_state(
                old(self).entries@,
                old(self).next_expected as int,
                number,
                payload,
            ),
            out@ == accept_output(
                old(self).entries@,
                old(self).next_expected as int,
                number,
                payload,
            ),
            number < old(self).next_expected ==> {
                &&& final(self).entries@ == old(self).entries@
                &&& final(self).next_expected == old(self).next_expected
                &&& out@.len() == 0
            },
            final(self).next_expected >= old(self).next_expected,
    {
        if number < self.next_expected {
            return Vec::new();
        }
        let n = self.entries.len();
        let mut pos: usize = 0;
        while pos < n && self.entries[pos].0 < number
            invariant
                n == self.entries@.len(),
                pos <= n,
                forall|k: int| 0 <= k < pos ==> (#[trigger] self.entries@[k]).0 < number,
            decreases n - pos,
        {
            pos = pos + 1;
        }
        if pos < n && self.entries[pos].0 == number {
            // Already buffered: ignore the duplicate.
            assert(contains_key(self.entries@, number));
            return Vec::new();
        }
        assert(!contains_key(self.entries@, number)) by {
            assert forall|i: int|
                0 <= i < self.entries@.len() implies (#[trigger] self.entries@[i]).0
                != number by {
                if i < pos {
                } else if i == pos {
                } else {
                    assert(self.entries@[pos as int].0 < self.entries@[i].0);
                }
            };
        };
        proof {
            lemma_insert_position_first_geq(self.entries@, number, pos as int);
        }
        self.entries.insert(pos, (number, payload));
        let ghost merged = self.entries@;
        let ghost next0 = self.next_expected as int;
        proof {
            lemma_sorted_after_insert(old(self).entries@, merged, pos as int, number);
            vstd::std_specs::vec::axiom_spec_len(&self.entries);
        }
        let mut out: Vec<T> = Vec::new();
        let mut drained: usize = 0;
        while self.entries.len() > 0 && self.entries[0].0 == self.next_expected
            invariant
                sorted_strict(merged),
                merged.len() <= usize::MAX,
                forall|p: int| 0 <= p < merged.len() ==> (#[trigger] merged[p]).0 >= next0,
                forall|p: int| 0 <= p < merged.len() ==> (#[trigger] merged[p]).0 < u64::MAX,
                drained <= merged.len(),
                self.entries@ == merged.skip(drained as int),
                self.next_expected == next0 + drained,
                next0 + drained <= u64::MAX,
                out@ == merged.subrange(0, drained as int).map_values(|p: (u64, T)| p.1),
                forall|k: int| 0 <= k < drained ==> (#[trigger] merged[k]).0 == next0 + k,
            decreases self.entries@.len(),
        {
            let pair = self.entries.remove(0);
            out.push(pair.1);
            self.next_expected = self.next_expected + 1;
            proof {
                assert(self.entries@ =~= merged.skip(drained as int + 1));
                assert(out@ =~= merged.subrange(0, drained as int + 1).map_values(
                    |p: (u64, T)| p.1,
                ));
            }
            drained = drained + 1;
        }
        proof {
            lemma_drain_count_characterize(merged, next0, drained as int);
            assert forall|p: int|
                0 <= p < self.entries@.len() implies (#[trigger] self.entries@[p]).0
                >= self.next_expected by {
                let d = drained as int;
                assert(self.entries@[p] == merged[d + p]);
                if drained > 0 {
                    assert(merged[d - 1].0 == next0 + (d - 1));
                    assert(merged[d - 1].0 < merged[d + p].0);
                } else {
                    assert(merged[d + p].0 >= next0);
                }
                if p == 0 {
                    assert(merged[d].0 != next0 + d);
                }
            };
        }
        out
    }

    /// The sequence number delivery is waiting for.
    pub fn next_seq_expected(&self) -> (r: u64)
        ensures
            r == self.next_expected,
    {
        self.next_expected
    }

    /// How many results are buffered waiting for earlier ones.
    pub fn pending(&self) -> (r: usize)
        ensures
            r == self.entries@.len(),
    {
        self.entries.len()
    }
}

/// `insert_position` is the first index whose key is not smaller.
proof fn lemma_insert_position_first_geq<T>(s: Seq<(u64, T)>, key: u64, p: int)
    requires
        0 <= p <= s.len(),
        forall|k: int| 0 <= k < p ==> (#[trigger] s[k]).0 < key,
        p == s.len() || s[p].0 >= key,
    ensures
        insert_position(s, key) == p,
    decreases s.len(),
{
    if p == 0 {
    } else {
        assert(s[0].0 < key);
        let rest = s.skip(1);
        assert(forall|k: int| 0 <= k < p - 1 ==> (#[trigger] rest[k]).0 == s[k + 1].0);
        lemma_insert_position_first_geq(rest, key, p - 1);
    }
}

/// Inserting a fresh key at its position keeps the buffer strictly
/// ascending.
proof fn lemma_sorted_after_insert<T>(s: Seq<(u64, T)>, merged: Seq<(u64, T)>, p: int, key: u64)
    requires
        sorted_strict(s),
        0 <= p <= s.len(),
        forall|k: int| 0 <= k < p ==> (#[trigger] s[k]).0 < key,
        p == s.len() || s[p].0 > key,
        merged.len() == s.len() + 1,
        forall|k: int| 0 <= k < p ==> merged[k] == s[k],
        merged[p].0 == key,
        forall|k: int| p < k < merged.len() ==> merged[k] == s[k - 1],
    ensures
        sorted_strict(merged),
{
    assert forall|i: int, j: int| 0 <= i < j < merged.len() implies #[trigger] merged[i].0
        < #[trigger] merged[j].0 by {
        if i < p && j < p {
        } else if i < p && j == p {
        } else if i < p && j > p {
            assert(s[i].0 < s[j - 1].0 || i == j - 1);
        } else if i == p && j > p {
            assert(merged[j].0 == s[j - 1].0);
            if p < s.len() {
                assert(s[p].0 <= s[j - 1].0 || p == j - 1);
            }
        } else if i > p {
            assert(merged[i].0 == s[i - 1].0 && merged[j].0 == s[j - 1].0);
        }
    };
}

/// The buffer and cursor after a whole run of results is accepted, one
/// after the other.
pub open spec fn feed_state<T>(s: Seq<(u64, T)>, next: int, feeds: Seq<(u64, T)>) -> (
    Seq<(u64, T)>,
    int,
)
    decreases feeds.len(),
{
    if feeds.len() == 0 {
        (s, next)
    } else {
        let st = accept_state(s, next, feeds[0].0, feeds[0].1);
        feed_state(st.0, st.1, feeds.skip(1))
    }
}

/// Everything a whole run of results delivers to the presenter, in
/// delivery order.
pub open spec fn feed_outputs<T>(s: Seq<(u64, T)>, next: int, feeds: Seq<(u64, T)>) -> Seq<T>
    decreases feeds.len(),
{
    if feeds.len() == 0 {
        Seq::empty()
    } else {
        let o = accept_output(s, next, feeds[0].0, feeds[0].1);
        let st = accept_state(s, next, feeds[0].0, feeds[0].1);
        o + feed_outputs(st.0, st.1, feeds.skip(1))
    }
}

/// Whether some already-fed result carries the key.
pub open spec fn fed_key<T>(feeds: Seq<(u64, T)>, key: u64) -> bool {
    exists|t: int| 0 <= t < feeds.len() && (#[trigger] feeds[t]).0 == key
}

/// Whether the exact entry was fed.
pub open spec fn fed_entry<T>(feeds: Seq<(u64, T)>, e: (u64, T)) -> bool {
    exists|t: int| 0 <= t < feeds.len() && (#[trigger] feeds[t]) == e
}

/// Position `j` of the delivered output carries the payload that was fed
/// for sequence number `j`.
pub open spec fn output_matches<T>(feeds: Seq<(u64, T)>, outs: Seq<T>, j: int) -> bool {
    exists|t: int|
        0 <= t < feeds.len() && (#[trigger] feeds[t]).0 == j && feeds[t].1 == outs[j]
}

/// What is always true of the buffer, the cursor and the delivered
/// payloads after any run of results has been fed from a fresh buffer:
/// the buffer holds exactly the fed results beyond the cursor, everything
/// below the cursor was fed and delivered, and position `j` of the output
/// carries the payload fed for sequence number `j`.
pub open spec fn run_inv<T>(done: Seq<(u64, T)>, s: Seq<(u64, T)>, next: int, outs: Seq<T>) -> bool {
    &&& sorted_strict(s)
    &&& next >= 0
    &&& forall|p: int| 0 <= p < s.len() ==> (#[trigger] s[p]).0 > next
    &&& forall|p: int| 0 <= p < s.len() ==> fed_entry(done, #[trigger] s[p])
    &&& forall|key: u64| #[trigger] fed_key(done, key) ==> key < next || contains_key(s, key)
    &&& forall|key: u64| key < next ==> #[trigger] fed_key(done, key)
    &&& outs.len() == next
    &&& forall|j: int| 0 <= j < next ==> #[trigger] output_matches(done, outs, j)
}

/// For an ascending buffer, `insert_position` lands past exactly the
/// smaller keys.
proof fn lemma_insert_position_bounds<T>(s: Seq<(u64, T)>, key: u64)
    requires
        sorted_strict(s),
    ensures
        0 <= insert_position(s, key) <= s.len(),
        forall|k: int| 0 <= k < insert_position(s, key) ==> (#[trigger] s[k]).0 < key,
        insert_position(s, key) == s.len() || s[insert_position(s, key)].0 >= key,
    decreases s.len(),
{
    if s.len() > 0 && s[0].0 < key {
        let rest = s.skip(1);
        assert(forall|k: int| 0 <= k < rest.len() ==> (#[trigger] rest[k]) == s[k + 1]);
        lemma_insert_position_bounds(rest, key);
        let p = insert_position(s, key);
        assert forall|k: int| 0 <= k < p implies (#[trigger] s[k]).0 < key by {
            if k > 0 {
                assert(rest[k - 1].0 < key);
            }
        };
        if p < s.len() {
            assert(s[p] == rest[p - 1]);
        }
    }
}

/// The front run counted by `drain_count` is gapless from `next`, and the
/// count is maximal: what one `accept` delivers is exactly the payloads
/// of the consecutive sequence numbers from the cursor upward.
pub proof fn lemma_drain_count_props<T>(s: Seq<(u64, T)>, next: int)
    ensures
        0 <= drain_count(s, next) <= s.len(),
        forall|k: int| 0 <= k < drain_count(s, next) ==> (#[trigger] s[k]).0 == next + k,
        drain_count(s, next) == s.len() || s[drain_count(s, next)].0 != next + drain_count(
            s,
            next,
        ),
    decreases s.len(),
{
    if s.len() > 0 && s[0].0 == next {
        let rest = s.skip(1);
        assert(forall|k: int| 0 <= k < rest.len() ==> (#[trigger] rest[k]) == s[k + 1]);
        lemma_drain_count_props(rest, next + 1);
        let m = drain_count(s, next);
        assert forall|k: int| 0 <= k < m implies (#[trigger] s[k]).0 == next + k by {
            if k > 0 {
                assert(rest[k - 1].0 == next + 1 + (k - 1));
            }
        };
        if m < s.len() {
            assert(s[m] == rest[m - 1]);
        }
    }
}

/// Feeding a stale or already-buffered result preserves the run
/// invariant: nothing changes.
proof fn lemma_run_step_stale<T>(done: Seq<(u64, T)>, s: Seq<(u64, T)>, next: int, outs: Seq<T>, key: u64, val: T)
    requires
        run_inv(done, s, next, outs),
        key < next || contains_key(s, key),
    ensures
        run_inv(
            done.push((key, val)),
            accept_state(s, next, key, val).0,
            accept_state(s, next, key, val).1,
            outs + accept_output(s, next, key, val),
        ),
{
    let done1 = done.push((key, val));
    assert forall|e: (u64, T)| fed_entry(done, e) implies #[trigger] fed_entry(done1, e) by {
        let t = choose|t: int| 0 <= t < done.len() && (#[trigger] done[t]) == e;
        assert(done1[t] == e);
    };
    assert forall|kk: u64| kk < next implies #[trigger] fed_key(done1, kk) by {
        assert(fed_key(done, kk));
        let t = choose|t: int| 0 <= t < done.len() && (#[trigger] done[t]).0 == kk;
        assert(done1[t].0 == kk);
    };
    assert(outs + accept_output(s, next, key, val) =~= outs);
    assert forall|kk: u64| #[trigger] fed_key(done1, kk) implies kk < next || contains_key(
        s,
        kk,
    ) by {
        let t = choose|t: int| 0 <= t < done1.len() && done1[t].0 == kk;
        if t < done.len() {
            assert(fed_key(done, kk));
        }
    };
    let outs1 = outs + accept_output(s, next, key, val);
    assert forall|j: int| 0 <= j < next implies #[trigger] output_matches(done1, outs1, j) by {
        assert(output_matches(done, outs, j));
        let t = choose|t: int|
            0 <= t < done.len() && (#[trigger] done[t]).0 == j && done[t].1 == outs[j];
        assert(done1[t].0 == j && done1[t].1 == outs1[j]);
    };
}

/// After a fresh result is inserted and the front run drained, the
/// buffer part of the run invariant holds again.
#[verifier::rlimit(100)]
proof fn lemma_run_step_fresh_state<T>(done: Seq<(u64, T)>, s: Seq<(u64, T)>, next: int, outs: Seq<T>, key: u64, val: T)
    requires
        run_inv(done, s, next, outs),
        key >= next,
        !contains_key(s, key),
    ensures
        ({
            let done1 = done.push((key, val));
            let merged = s.insert(insert_position(s, key), (key, val));
            let m = drain_count(merged, next);
            let s1 = merged.skip(m);
            let next1 = next + m;
            &&& sorted_strict(s1)
            &&& forall|q: int| 0 <= q < s1.len() ==> (#[trigger] s1[q]).0 > next1
            &&& forall|q: int| 0 <= q < s1.len() ==> fed_entry(done1, #[trigger] s1[q])
            &&& forall|kk: u64|
                #[trigger] fed_key(done1, kk) ==> kk < next1 || contains_key(s1, kk)
            &&& forall|kk: u64| kk < next1 ==> #[trigger] fed_key(done1, kk)
        }),
{
    let done1 = done.push((key, val));
    assert forall|e: (u64, T)| fed_entry(done, e) implies #[trigger] fed_entry(done1, e) by {
        let t = choose|t: int| 0 <= t < done.len() && (#[trigger] done[t]) == e;
        assert(done1[t] == e);
    };
    let p = insert_position(s, key);
    lemma_insert_position_bounds(s, key);
    let merged = s.insert(p, (key, val));
    s.insert_ensures(p, (key, val));
    if p < s.len() {
        assert(s[p].0 != key);
    }
    lemma_sorted_after_insert(s, merged, p, key);
    let m = drain_count(merged, next);
    lemma_drain_count_props(merged, next);
    let s1 = merged.skip(m);
    let next1 = next + m;
    // Every merged entry was fed, and every merged key is at least the
    // old cursor.
    assert forall|q: int| 0 <= q < merged.len() implies fed_entry(done1, #[trigger] merged[q])
        && merged[q].0 >= next by {
        if q < p {
            assert(merged[q] == s[q]);
        } else if q == p {
            assert(merged[q] == (key, val));
            assert(done1[done.len() as int] == (key, val));
        } else {
            assert(merged[q] == s[q - 1]);
        }
    };
    // The entry just past the drained run has a strictly larger key.
    assert(m < merged.len() ==> merged[m].0 > next1) by {
        if m < merged.len() {
            if m > 0 {
                assert(merged[m - 1].0 < merged[m].0);
            }
        }
    };
    assert forall|q: int| 0 <= q < s1.len() implies (#[trigger] s1[q]).0 > next1 by {
        assert(s1[q] == merged[m + q]);
        if q > 0 {
            assert(merged[m].0 < merged[m + q].0);
        }
    };
    assert(sorted_strict(s1)) by {
        assert forall|i: int, j: int| 0 <= i < j < s1.len() implies #[trigger] s1[i].0
            < #[trigger] s1[j].0 by {
            assert(s1[i] == merged[m + i] && s1[j] == merged[m + j]);
        };
    };
    assert forall|q: int| 0 <= q < s1.len() implies fed_entry(done1, #[trigger] s1[q]) by {
        assert(s1[q] == merged[m + q]);
    };
    // A key fed so far is either already delivered or still buffered.
    assert forall|kk: u64| #[trigger] fed_key(done1, kk) implies kk < next1 || contains_key(
        s1,
        kk,
    ) by {
        if kk == key {
            if p < m {
                assert(merged[p].0 == next + p);
            } else {
                assert(s1[p - m] == merged[p]);
                assert(merged[p] == (key, val));
                assert(contains_key(s1, kk));
            }
        } else {
            assert(fed_key(done, kk)) by {
                let t = choose|t: int| 0 <= t < done1.len() && done1[t].0 == kk;
                assert(0 <= t < done.len());
            };
            if kk < next {
            } else {
                let i = choose|i: int| 0 <= i < s.len() && (#[trigger] s[i]).0 == kk;
                let q: int = if i < p {
                    i
                } else {
                    i + 1
                };
                assert(merged[q].0 == kk);
                if q < m {
                    assert(merged[q].0 == next + q);
                } else {
                    assert(s1[q - m] == merged[q]);
                    assert(contains_key(s1, kk));
                }
            }
        }
    };
    // Everything below the new cursor has been fed.
    assert forall|kk: u64| kk < next1 implies #[trigger] fed_key(done1, kk) by {
        if kk < next {
            assert(fed_key(done, kk));
            let t = choose|t: int| 0 <= t < done.len() && (#[trigger] done[t]).0 == kk;
            assert(done1[t].0 == kk);
        } else {
            let q = kk - next;
            assert(merged[q].0 == next + q);
            assert(fed_entry(done1, merged[q]));
            let t = choose|t: int| 0 <= t < done1.len() && done1[t] == merged[q];
            assert(done1[t].0 == kk);
        }
    };
}

/// After a fresh result is inserted and the front run drained, the
/// delivered payloads extend position for position.
#[verifier::rlimit(100)]
proof fn lemma_run_step_fresh_outputs<T>(done: Seq<(u64, T)>, s: Seq<(u64, T)>, next: int, outs: Seq<T>, key: u64, val: T)
    requires
        run_inv(done, s, next, outs),
        key >= next,
        !contains_key(s, key),
    ensures
        ({
            let done1 = done.push((key, val));
            let merged = s.insert(insert_position(s, key), (key, val));
            let m = drain_count(merged, next);
            let outs1 = outs + merged.subrange(0, m).map_values(|q: (u64, T)| q.1);
            &&& outs1.len() == next + m
            &&& forall|j: int| 0 <= j < next + m ==> #[trigger] output_matches(done1, outs1, j)
        }),
{
    let done1 = done.push((key, val));
    let p = insert_position(s, key);
    lemma_insert_position_bounds(s, key);
    let merged = s.insert(p, (key, val));
    s.insert_ensures(p, (key, val));
    if p < s.len() {
        assert(s[p].0 != key);
    }
    let m = drain_count(merged, next);
    lemma_drain_count_props(merged, next);
    let o = merged.subrange(0, m).map_values(|q: (u64, T)| q.1);
    let outs1 = outs + o;
    let next1 = next + m;
    assert forall|q: int| 0 <= q < merged.len() implies fed_entry(done1, #[trigger] merged[q]) by {
        if q < p {
            assert(merged[q] == s[q]);
            assert(fed_entry(done, s[q]));
            let t = choose|t: int| 0 <= t < done.len() && (#[trigger] done[t]) == s[q];
            assert(done1[t] == merged[q]);
        } else if q == p {
            assert(merged[q] == (key, val));
            assert(done1[done.len() as int] == (key, val));
        } else {
            assert(merged[q] == s[q - 1]);
            assert(fed_entry(done, s[q - 1]));
            let t = choose|t: int| 0 <= t < done.len() && (#[trigger] done[t]) == s[q - 1];
            assert(done1[t] == merged[q]);
        }
    };
    assert(outs1.len() == next1);
    assert forall|j: int| 0 <= j < next1 implies #[trigger] output_matches(done1, outs1, j) by {
        if j < next {
            assert(output_matches(done, outs, j));
            let t = choose|t: int|
                0 <= t < done.len() && (#[trigger] done[t]).0 == j && done[t].1 == outs[j];
            assert(done1[t].0 == j && done1[t].1 == outs1[j]);
        } else {
            let q = j - next;
            assert(merged[q].0 == next + q);
            assert(outs1[j] == o[q]);
            assert(o[q] == merged.subrange(0, m)[q].1);
            assert(fed_entry(done1, merged[q]));
            let t = choose|t: int| 0 <= t < done1.len() && done1[t] == merged[q];
            assert(done1[t].0 == j && done1[t].1 == outs1[j]);
        }
    };
}

/// Feeding one result preserves the run invariant.
proof fn lemma_run_step<T>(done: Seq<(u64, T)>, s: Seq<(u64, T)>, next: int, outs: Seq<T>, key: u64, val: T)
    requires
        run_inv(done, s, next, outs),
    ensures
        run_inv(
            done.push((key, val)),
            accept_state(s, next, key, val).0,
            accept_state(s, next, key, val).1,
            outs + accept_output(s, next, key, val),
        ),
{
    if key < next || contains_key(s, key) {
        lemma_run_step_stale(done, s, next, outs, key, val);
    } else {
        lemma_run_step_fresh_state(done, s, next, outs, key, val);
        lemma_run_step_fresh_outputs(done, s, next, outs, key, val);
    }
}

/// Feeding a whole run preserves the run invariant.
proof fn lemma_feed_run<T>(done: Seq<(u64, T)>, s: Seq<(u64, T)>, next: int, outs: Seq<T>, feeds: Seq<(u64, T)>)
    requires
        run_inv(done, s, next, outs),
    ensures
        run_inv(
            done + feeds,
            feed_state(s, next, feeds).0,
            feed_state(s, next, feeds).1,
            outs + feed_outputs(s, next, feeds),
        ),
    decreases feeds.len(),
{
    if feeds.len() == 0 {
        assert(done + feeds =~= done);
        assert(outs + feed_outputs(s, next, feeds) =~= outs);
    } else {
        let key = feeds[0].0;
        let val = feeds[0].1;
        lemma_run_step(done, s, next, outs, key, val);
        let st = accept_state(s, next, key, val);
        let o = accept_output(s, next, key, val);
        lemma_feed_run(done.push(feeds[0]), st.0, st.1, outs + o, feeds.skip(1));
        assert(done.push(feeds[0]) + feeds.skip(1) =~= done + feeds);
        assert((outs + o) + feed_outputs(st.0, st.1, feeds.skip(1)) =~= outs + feed_outputs(
            s,
            next,
            feeds,
        ));
    }
}

/// Reassembly ordering: feeding the results numbered `0 ..= k`, in any
/// order, to a fresh buffer delivers exactly `k + 1` payloads, in
/// sequence order — position `j` of the output is the payload fed for
/// sequence number `j` — with the buffer left empty and the cursor at
/// `k + 1`.
pub proof fn lemma_reassembly_permutation<T>(feeds: Seq<(u64, T)>, k: u64)
    requires
        k < u64::MAX,
        feeds.len() == k + 1,
        forall|i: int, j: int|
            0 <= i < j < feeds.len() ==> (#[trigger] feeds[i]).0 != (#[trigger] feeds[j]).0,
        forall|t: int| 0 <= t < feeds.len() ==> (#[trigger] feeds[t]).0 <= k,
        forall|m: u64| m <= k ==> #[trigger] fed_key(feeds, m),
    ensures
        feed_state(Seq::<(u64, T)>::empty(), 0, feeds).1 == k + 1,
        feed_state(Seq::<(u64, T)>::empty(), 0, feeds).0.len() == 0,
        feed_outputs(Seq::<(u64, T)>::empty(), 0, feeds).len() == k + 1,
        forall|j: u64|
            j <= k ==> #[trigger] output_matches(
                feeds,
                feed_outputs(Seq::<(u64, T)>::empty(), 0, feeds),
                j as int,
            ),
{
    let s0 = Seq::<(u64, T)>::empty();
    let o0 = Seq::<T>::empty();
    assert(run_inv(Seq::<(u64, T)>::empty(), s0, 0, o0));
    lemma_feed_run(Seq::<(u64, T)>::empty(), s0, 0, o0, feeds);
    let done = Seq::<(u64, T)>::empty() + feeds;
    assert(done =~= feeds);
    let st = feed_state(s0, 0, feeds);
    let outs = o0 + feed_outputs(s0, 0, feeds);
    assert(outs =~= feed_outputs(s0, 0, feeds));
    let nf = st.1;
    // The cursor cannot exceed k + 1: everything below it was fed, and
    // every fed key is at most k.
    assert(nf <= k + 1) by {
        if nf > k + 1 {
            assert(fed_key(done, (k + 1) as u64));
            let t = choose|t: int| 0 <= t < done.len() && done[t].0 == (k + 1) as u64;
            assert(feeds[t].0 <= k);
        }
    };
    // The cursor cannot stop at or below k: that sequence number was fed,
    // is not yet delivered, and cannot be buffered beyond itself.
    assert(nf == k + 1) by {
        if nf <= k {
            let kk = nf as u64;
            assert(fed_key(feeds, kk));
            assert(fed_key(done, kk));
            if contains_key(st.0, kk) {
                let i = choose|i: int| 0 <= i < st.0.len() && (#[trigger] st.0[i]).0 == kk;
                assert(st.0[i].0 > nf);
            }
        }
    };
    // Nothing stays buffered: a buffered key would have to exceed k + 1
    // yet have been fed.
    assert(st.0.len() == 0) by {
        if st.0.len() > 0 {
            assert(st.0[0].0 > nf);
            assert(fed_entry(done, st.0[0]));
            let t = choose|t: int| 0 <= t < done.len() && done[t] == st.0[0];
            assert(feeds[t].0 <= k);
        }
    };
    assert forall|j: u64| j <= k implies #[trigger] output_matches(
        feeds,
        feed_outputs(Seq::<(u64, T)>::empty(), 0, feeds),
        j as int,
    ) by {
        assert(0 <= (j as int) && (j as int) < nf);
        let jj = j as int;
        assert(output_matches(done, outs, jj));
        let t = choose|t: int|
            0 <= t < done.len() && (#[trigger] done[t]).0 == jj && done[t].1 == outs[jj];
        assert(feeds[t] == done[t]);
        assert(outs[jj] == feed_outputs(Seq::<(u64, T)>::empty(), 0, feeds)[jj]);
        assert(feeds[t].0 == jj && feeds[t].1 == feed_outputs(
            Seq::<(u64, T)>::empty(),
            0,
            feeds,
        )[jj]);
    };
}

/// A buffer whose front is the gapless run `next .. next + j`, and stops
/// being gapless there, drains exactly `j` entries.
proof fn lemma_drain_count_characterize<T>(s: Seq<(u64, T)>, next: int, j: int)
    requires
        0 <= j <= s.len(),
        forall|k: int| 0 <= k < j ==> (#[trigger] s[k]).0 == next + k,
        j == s.len() || s[j].0 != next + j,
    ensures
        drain_count(s, next) == j,
    decreases s.len(),
{
    if j == 0 {
    } else {
        assert(s[0].0 == next);
        let rest = s.skip(1);
        assert(forall|k: int| 0 <= k < rest.len() ==> (#[trigger] rest[k]) == s[k + 1]);
        lemma_drain_count_characterize(rest, next + 1, j - 1);
    }
}

} // verus!
