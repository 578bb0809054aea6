//! Request correlator: tracks outstanding requests by sequence number and
//! matches each arriving response to the pending request whose `seq` equals
//! the response's `request_seq`. A pending request is removed the moment it
//! is resolved, so it can never be resolved twice; a response without a match
//! is reported as unmatched and changes nothing.

use vstd::prelude::*;

verus! {

/// One outstanding request: its sequence number and when it was sent, for
/// the caller's timeout accounting.
#[derive(Debug, Clone, Copy, PartialEq, Eq, Structural)]
pub struct PendingRequest {
    pub seq: i64,
    pub created: u64,
}

/// The pending set a sequence of entries stands for, keyed by `seq`.
pub open spec fn map_of(s: Seq<PendingRequest>) -> Map<i64, u64>
    decreases s.len(),
{
    if s.len() == 0 {
        Map::empty()
    } else {
        map_of(s.drop_last()).insert(s.last().seq, s.last().created)
    }
}

/// No two entries share a sequence number.
pub open spec fn unique_seqs(s: Seq<PendingRequest>) -> bool {
    forall|x: int, y: int|
        #![trigger s[x], s[y]]
        0 <= x < y < s.len() ==> s[x].seq != s[y].seq
}

pub proof fn lemma_map_of_contains(s: Seq<PendingRequest>)
    ensures
        forall|k: i64|
            map_of(s).contains_key(k) <==> exists|i: int| 0 <= i < s.len() && (#[trigger] s[i]).seq == k,
    decreases s.len(),
{
    if s.len() > 0 {
        let dl = s.drop_last();
        lemma_map_of_contains(dl);
        assert(map_of(s) == map_of(dl).insert(s.last().seq, s.last().created));
        assert(forall|i: int| 0 <= i < dl.len() ==> #[trigger] dl[i] == s[i]);
        assert forall|k: i64| map_of(s).contains_key(k)
            implies exists|i: int| 0 <= i < s.len() && (#[trigger] s[i]).seq == k by {
            if k == s.last().seq {
                assert(s[s.len() - 1].seq == k);
            } else {
                assert(map_of(dl).contains_key(k));
                let i = choose|i: int| 0 <= i < dl.len() && (#[trigger] dl[i]).seq == k;
                assert(s[i].seq == k);
            }
        }
        assert forall|k: i64| (exists|i: int| 0 <= i < s.len() && (#[trigger] s[i]).seq == k)
            implies map_of(s).contains_key(k) by {
            let i = choose|i: int| 0 <= i < s.len() && (#[trigger] s[i]).seq == k;
            if i < s.len() - 1 {
                assert(dl[i].seq == k);
                assert(map_of(dl).contains_key(k));
            }
        }
    }
}

/// With unique sequence numbers, the entry at `i` is the map's entry.
pub proof fn lemma_map_of_index(s: Seq<PendingRequest>, i: int)
    requires
        unique_seqs(s),
        0 <= i < s.len(),
    ensures
        map_of(s).contains_key(s[i].seq),
        map_of(s)[s[i].seq] == s[i].created,
    decreases s.len(),
{
    if i < s.len() - 1 {
        assert(s.drop_last()[i] == s[i]);
        lemma_map_of_index(s.drop_last(), i);
    }
}

/// Removing the entry at `i` removes exactly its key from the map.
pub proof fn lemma_map_of_remove(s: Seq<PendingRequest>, i: int)
    requires
        unique_seqs(s),
        0 <= i < s.len(),
    ensures
        map_of(s.remove(i)) == map_of(s).remove(s[i].seq),
    decreases s.len(),
{
    lemma_map_of_contains(s.drop_last());
    if i == s.len() - 1 {
        assert(s.remove(i) =~= s.drop_last());
        assert(!map_of(s.drop_last()).contains_key(s[i].seq));
        assert(map_of(s.remove(i)) =~= map_of(s).remove(s[i].seq));
    } else {
        let dl = s.drop_last();
        assert(s.remove(i).drop_last() =~= dl.remove(i));
        assert(s.remove(i).last() == s.last());
        assert(forall|x: int, y: int|
            #![trigger dl[x], dl[y]]
            0 <= x < y < dl.len() ==> dl[x].seq != dl[y].seq);
        lemma_map_of_remove(dl, i);
        assert(s[i].seq != s.last().seq);
        assert(map_of(s.remove(i)) =~= map_of(s).remove(s[i].seq));
    }
}

/// What one arriving response does to a pending set: when the set holds the
/// response's `request_seq`, exactly that entry leaves; otherwise nothing
/// changes.
pub open spec fn resolve_step(m: Map<i64, u64>, request_seq: i64) -> Map<i64, u64> {
    if m.contains_key(request_seq) {
        m.remove(request_seq)
    } else {
        m
    }
}

/// Whether a response with this `request_seq` finds its pending request.
pub open spec fn resolve_hits(m: Map<i64, u64>, request_seq: i64) -> bool {
    m.contains_key(request_seq)
}

/// Correlation correctness, one response at a time: a matching response
/// removes exactly the pending request whose `seq` equals its `request_seq`
/// and leaves every other pending request in place, and once resolved the
/// same `request_seq` can never resolve anything again.
pub proof fn lemma_resolve_exactly_once(m: Map<i64, u64>, request_seq: i64)
    requires
        m.contains_key(request_seq),
    ensures
        !resolve_step(m, request_seq).contains_key(request_seq),
        forall|k: i64| k != request_seq ==> (resolve_step(m, request_seq).contains_key(k)
            <==> m.contains_key(k)),
        forall|k: i64| k != request_seq && m.contains_key(k)
            ==> resolve_step(m, request_seq)[k] == m[k],
        !resolve_hits(resolve_step(m, request_seq), request_seq),
        resolve_step(resolve_step(m, request_seq), request_seq) == resolve_step(m, request_seq),
{
}

/// Correlation correctness under reordering: responses to two distinct
/// outstanding requests resolve the same pending requests in whichever order
/// they arrive, so any permutation of arrivals correlates identically.
pub proof fn lemma_resolve_order_independent(m: Map<i64, u64>, s1: i64, s2: i64)
    requires
        s1 != s2,
    ensures
        resolve_step(resolve_step(m, s1), s2) == resolve_step(resolve_step(m, s2), s1),
        resolve_hits(resolve_step(m, s2), s1) == resolve_hits(m, s1),
        resolve_hits(resolve_step(m, s1), s2) == resolve_hits(m, s2),
{
    assert(resolve_step(resolve_step(m, s1), s2) =~= resolve_step(resolve_step(m, s2), s1));
}

/// With unique sequence numbers the pending map has one entry per entry of
/// the sequence.
pub proof fn lemma_map_of_len(s: Seq<PendingRequest>)
    requires
        unique_seqs(s),
    ensures
        map_of(s).dom().finite(),
        map_of(s).len() == s.len(),
    decreases s.len(),
{
    if s.len() > 0 {
        let dl = s.drop_last();
        assert(forall|x: int, y: int|
            #![trigger dl[x], dl[y]]
            0 <= x < y < dl.len() ==> dl[x].seq != dl[y].seq);
        lemma_map_of_len(dl);
        lemma_map_of_contains(dl);
        assert(!map_of(dl).contains_key(s.last().seq));
    }
}

/// An unmatched response: a `request_seq` that is not pending resolves
/// nothing and leaves every pending request untouched.
pub proof fn lemma_unmatched_response_no_effect(m: Map<i64, u64>, request_seq: i64)
    requires
        !m.contains_key(request_seq),
    ensures
        !resolve_hits(m, request_seq),
        resolve_step(m, request_seq) == m,
{
}

/// Tracks the outstanding requests of one session, keyed by sequence number.
pub struct Correlator {
    pending: Vec<PendingRequest>,
}

impl View for Correlator {
    type V = Map<i64, u64>;

    closed spec fn view(&self) -> Map<i64, u64> {
        map_of(self.pending@)
    }
}

impl Correlator {
    pub closed spec fn wf(&self) -> bool {
        unique_seqs(self.pending@)
    }

    pub fn new() -> (r: Correlator)
        ensures
            r.wf(),
            r@ == Map::<i64, u64>::empty(),
            r@.len() == 0,
    {
        Correlator { pending: Vec::new() }
    }

    /// How many requests are outstanding.
    pub fn outstanding(&self) -> (r: usize)
        requires
            self.wf(),
        ensures
            self@.dom().finite(),
            r == self@.len(),
            r == 0 <==> self@ == Map::<i64, u64>::empty(),
    {
        proof {
            lemma_map_of_len(self.pending@);
            lemma_map_of_contains(self.pending@);
            if self.pending@.len() > 0 {
                assert(self@.contains_key(self.pending@[0].seq));
            } else {
                assert(self@ =~= Map::<i64, u64>::empty());
            }
        }
        self.pending.len()
    }

    /// Registers a request that was just sent, before its response can race
    /// with it. The caller numbers requests uniquely, so `seq` is new.
    pub fn register(&mut self, seq: i64, now: u64)
        requires
            old(self).wf(),
            !old(self)@.contains_key(seq),
        ensures
            final(self).wf(),
            final(self)@ == old(self)@.insert(seq, now),
    {
        proof {
            lemma_map_of_contains(self.pending@);
        }
        self.pending.push(PendingRequest { seq, created: now });
        proof {
            assert(self.pending@.drop_last() =~= old(self).pending@);
            assert(forall|x: int| 0 <= x < old(self).pending@.len()
                ==> (#[trigger] old(self).pending@[x]).seq != seq);
        }
    }

    /// Looks up and removes the pending request that a response with this
    /// `request_seq` answers. `None` means no such request is outstanding
    /// (never registered, or already resolved): a protocol warning for the
    /// caller to log, with every other pending request left untouched.
    pub fn resolve(&mut self, request_seq: i64) -> (r: Option<PendingRequest>)
        requires
            old(self).wf(),
        ensures
            final(self).wf(),
            final(self)@ == resolve_step(old(self)@, request_seq),
            r matches Some(pr) ==> pr.seq == request_seq
                && old(self)@.contains_key(request_seq)
                && pr.created == old(self)@[request_seq],
            r is None <==> !resolve_hits(old(self)@, request_seq),
    {
        proof {
            lemma_map_of_contains(self.pending@);
        }
        let ghost s0 = self.pending@;
        let mut i: usize = 0;
        while i < self.pending.len()
            invariant
                self.pending@ == s0,
                old(self)@ == map_of(s0),
                unique_seqs(s0),
                i <= s0.len(),
                forall|x: int| 0 <= x < i ==> (#[trigger] s0[x]).seq != request_seq,
            decreases s0.len() - i,
        {
            if self.pending[i].seq == request_seq {
                let pr = self.pending.remove(i);
                proof {
                    lemma_map_of_index(s0, i as int);
                    lemma_map_of_remove(s0, i as int);
                    assert(forall|x: int, y: int|
                        #![trigger s0.remove(i as int)[x], s0.remove(i as int)[y]]
                        0 <= x < y < s0.remove(i as int).len()
                            ==> s0.remove(i as int)[x].seq != s0.remove(i as int)[y].seq);
                }
                return Some(pr);
            }
            i = i + 1;
        }
        proof {
            lemma_map_of_contains(s0);
            assert(!map_of(s0).contains_key(request_seq));
        }
        None
    }

    /// Removes one pending request whose caller-chosen timeout has elapsed,
    /// so that only that caller sees a timeout failure; the session and every
    /// other pending request go on untouched.
    pub fn expire(&mut self, seq: i64) -> (r: Option<PendingRequest>)
        requires
            old(self).wf(),
        ensures
            final(self).wf(),
            final(self)@ == resolve_step(old(self)@, seq),
            r matches Some(pr) ==> pr.seq == seq
                && old(self)@.contains_key(seq)
                && pr.created == old(self)@[seq],
            r is None <==> !resolve_hits(old(self)@, seq),
    {
        self.resolve(seq)
    }

    /// Removes and returns every outstanding request, so the caller can fail
    /// each one when the session ends; none may be silently dropped.
    pub fn fail_all(&mut self) -> (r: Vec<PendingRequest>)
        requires
            old(self).wf(),
        ensures
            final(self).wf(),
            final(self)@ == Map::<i64, u64>::empty(),
            r@.len() == old(self)@.len(),
            unique_seqs(r@),
            forall|x: int| 0 <= x < r@.len()
                ==> old(self)@.contains_key((#[trigger] r@[x]).seq)
                    && old(self)@[r@[x].seq] == r@[x].created,
            forall|k: i64| old(self)@.contains_key(k)
                ==> exists|x: int| 0 <= x < r@.len() && (#[trigger] r@[x]).seq == k,
    {
        let mut out: Vec<PendingRequest> = Vec::new();
        core::mem::swap(&mut out, &mut self.pending);
        proof {
            assert(self.pending@ =~= Seq::<PendingRequest>::empty());
            assert(self@ =~= Map::<i64, u64>::empty());
            lemma_map_of_len(out@);
            lemma_map_of_contains(out@);
            assert forall|x: int| 0 <= x < out@.len()
                implies old(self)@.contains_key((#[trigger] out@[x]).seq)
                    && old(self)@[out@[x].seq] == out@[x].created by {
                lemma_map_of_index(out@, x);
            }
        }
        out
    }
}

} // verus!
