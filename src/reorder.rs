//! The bounded-delay reordering buffer.
//!
//! Quotes are held front to back in descending order of accept time; the
//! back holds the quote accepted first.  After each insertion the back is
//! emitted for as long as the newest accept time runs more than
//! `MAX_DELAY_MICROS` ahead of its capture time.

use vstd::prelude::*;
use crate::quote::{QuotePackets, QuoteView, quotes_view};

verus! {

/// How far the newest accept time may run ahead of a buffered quote's
/// capture time before that quote is emitted.
pub const MAX_DELAY_MICROS: i128 = 3_000_000;

/// Whether `q` has waited long enough, judged by the accept time `now` of the
/// newest quote.
pub open spec fn overdue(now: u64, q: QuoteView) -> bool {
    now - q.capture_micros > MAX_DELAY_MICROS
}

/// Accept times never increase from front to back.
pub open spec fn descending(s: Seq<QuoteView>) -> bool {
    forall|i: int, j: int|
        0 <= i < j < s.len() ==> #[trigger] s[j].accept_micros <= #[trigger] s[i].accept_micros
}

/// Accept times never decrease along `s`.
pub open spec fn ascending(s: Seq<QuoteView>) -> bool {
    forall|i: int, j: int|
        0 <= i < j < s.len() ==> #[trigger] s[i].accept_micros <= #[trigger] s[j].accept_micros
}

/// Where a quote accepted at `t` goes: before the first buffered quote
/// accepted no later than `t`, or at the back.
pub open spec fn insert_index(s: Seq<QuoteView>, t: u64) -> nat
    decreases s.len(),
{
    if s.len() == 0 || s[0].accept_micros <= t {
        0
    } else {
        1 + insert_index(s.drop_first(), t)
    }
}

/// Emission from the back of `s` at time `now`: what stays, and what is
/// emitted, in the order of emission.
pub open spec fn evict(s: Seq<QuoteView>, now: u64) -> (Seq<QuoteView>, Seq<QuoteView>)
    decreases s.len(),
{
    if s.len() > 0 && overdue(now, s.last()) {
        let r = evict(s.drop_last(), now);
        (r.0, seq![s.last()] + r.1)
    } else {
        (s, Seq::empty())
    }
}

/// One quote into buffer `s`: the new buffer and what it emits.
pub open spec fn feed(s: Seq<QuoteView>, q: QuoteView) -> (Seq<QuoteView>, Seq<QuoteView>) {
    evict(s.insert(insert_index(s, q.accept_micros) as int, q), q.accept_micros)
}

/// `qs` fed in order into an empty buffer: the buffer left, and all that
/// was emitted on the way.
pub open spec fn feed_all(qs: Seq<QuoteView>) -> (Seq<QuoteView>, Seq<QuoteView>)
    decreases qs.len(),
{
    if qs.len() == 0 {
        (Seq::empty(), Seq::empty())
    } else {
        let r = feed_all(qs.drop_last());
        let f = feed(r.0, qs.last());
        (f.0, r.1 + f.1)
    }
}

/// Everything that `qs` give through the buffer, the final flush included.
pub open spec fn reorder_all(qs: Seq<QuoteView>) -> Seq<QuoteView> {
    feed_all(qs).1 + feed_all(qs).0.reverse()
}

/// The quotes accepted at `t`.
pub open spec fn accepted_at(t: u64) -> spec_fn(QuoteView) -> bool {
    |q: QuoteView| q.accept_micros == t
}

proof fn lemma_insert_index(s: Seq<QuoteView>, t: u64)
    ensures
        insert_index(s, t) <= s.len(),
        forall|k: int| 0 <= k < insert_index(s, t) ==> s[k].accept_micros > t,
        insert_index(s, t) < s.len() ==> s[insert_index(s, t) as int].accept_micros <= t,
    decreases s.len(),
{
    if s.len() > 0 && s[0].accept_micros > t {
        lemma_insert_index(s.drop_first(), t);
        assert forall|k: int| 0 <= k < insert_index(s, t) implies s[k].accept_micros > t by {
            if k > 0 {
                assert(s[k] == s.drop_first()[k - 1]);
            }
        }
    }
}

/// The position found by a scan from the front is `insert_index`.
proof fn lemma_insert_index_unique(s: Seq<QuoteView>, t: u64, i: int)
    requires
        0 <= i <= s.len(),
        forall|k: int| 0 <= k < i ==> s[k].accept_micros > t,
        i < s.len() ==> s[i].accept_micros <= t,
    ensures
        insert_index(s, t) == i,
    decreases s.len(),
{
    if i > 0 {
        assert(s[0].accept_micros > t);
        assert forall|k: int| 0 <= k < i - 1 implies s.drop_first()[k].accept_micros > t by {
            assert(s.drop_first()[k] == s[k + 1]);
        }
        lemma_insert_index_unique(s.drop_first(), t, i - 1);
    }
}

proof fn lemma_insert_descending(s: Seq<QuoteView>, q: QuoteView)
    requires
        descending(s),
    ensures
        descending(s.insert(insert_index(s, q.accept_micros) as int, q)),
{
    let t = q.accept_micros;
    let i = insert_index(s, t) as int;
    lemma_insert_index(s, t);
    let n = s.insert(i, q);
    assert forall|a: int, b: int| 0 <= a < b < n.len() implies #[trigger] n[b].accept_micros
        <= #[trigger] n[a].accept_micros by {
        if a < i && b == i {
        } else if a == i && b > i {
            assert(s[b - 1].accept_micros <= s[i].accept_micros);
        } else if a < i && b > i {
            assert(s[b - 1].accept_micros <= s[a].accept_micros);
        }
    }
}

/// What `evict` emits, followed by what it keeps back to front, is the
/// buffer back to front; what it keeps is a front part of the buffer.
proof fn lemma_evict(s: Seq<QuoteView>, now: u64)
    ensures
        evict(s, now).1 + evict(s, now).0.reverse() == s.reverse(),
        evict(s, now).0.len() <= s.len(),
        evict(s, now).0 == s.subrange(0, evict(s, now).0.len() as int),
        forall|k: int| 0 <= k < evict(s, now).1.len() ==> overdue(now, #[trigger] evict(s, now).1[k]),
        evict(s, now).0.len() > 0 ==> !overdue(now, evict(s, now).0.last()),
    decreases s.len(),
{
    if s.len() > 0 && overdue(now, s.last()) {
        let d = s.drop_last();
        lemma_evict(d, now);
        assert(s.reverse() =~= seq![s.last()] + d.reverse());
        assert(seq![s.last()] + evict(d, now).1 + evict(d, now).0.reverse() =~= seq![s.last()] + (
        evict(d, now).1 + evict(d, now).0.reverse()));
        assert(evict(d, now).0 =~= s.subrange(0, evict(d, now).0.len() as int));
        assert forall|k: int| 0 <= k < evict(s, now).1.len() implies overdue(
            now,
            #[trigger] evict(s, now).1[k],
        ) by {
            if k > 0 {
                assert(evict(s, now).1[k] == evict(d, now).1[k - 1]);
            }
        }
    } else {
        assert(s =~= s.subrange(0, s.len() as int));
    }
}

/// Back to front, a buffer with `q` inserted holds, among the quotes
/// accepted at any one time, those it held before and then `q`.
proof fn lemma_insert_ties(s: Seq<QuoteView>, q: QuoteView, t: u64)
    requires
        descending(s),
    ensures
        s.insert(insert_index(s, q.accept_micros) as int, q).reverse().filter(accepted_at(t))
            == s.reverse().filter(accepted_at(t)) + seq![q].filter(accepted_at(t)),
{
    let i = insert_index(s, q.accept_micros) as int;
    lemma_insert_index(s, q.accept_micros);
    let front = s.subrange(0, i);
    let back = s.subrange(i, s.len() as int);
    let p = accepted_at(t);
    assert(s.insert(i, q).reverse() =~= back.reverse() + seq![q] + front.reverse());
    assert(s.reverse() =~= back.reverse() + front.reverse());
    Seq::filter_distributes_over_add(back.reverse() + seq![q], front.reverse(), p);
    Seq::filter_distributes_over_add(back.reverse(), seq![q], p);
    Seq::filter_distributes_over_add(back.reverse(), front.reverse(), p);
    if q.accept_micros == t {
        assert forall|k: int| 0 <= k < front.reverse().len() implies !p(
            #[trigger] front.reverse()[k],
        ) by {
            assert(front.reverse()[k] == s[i - 1 - k]);
        }
        front.reverse().lemma_all_neg_filter_empty(p);
    } else {
        reveal(Seq::filter);
        assert(!p(seq![q].last()));
        assert(seq![q].drop_last() =~= Seq::<QuoteView>::empty());
        assert(Seq::<QuoteView>::empty().filter(p) =~= Seq::<QuoteView>::empty());
        assert(seq![q].filter(p) =~= Seq::<QuoteView>::empty());
    }
    Seq::filter_distributes_over_add(back.reverse() + front.reverse(), seq![q], p);
}

/// Feeding the buffer keeps it in descending order, emits what leaves the
/// back, and loses nothing: emissions then the buffer back to front.
proof fn lemma_feed(s: Seq<QuoteView>, q: QuoteView)
    requires
        descending(s),
    ensures
        descending(feed(s, q).0),
        feed(s, q).1 + feed(s, q).0.reverse() == s.insert(
            insert_index(s, q.accept_micros) as int,
            q,
        ).reverse(),
{
    let n = s.insert(insert_index(s, q.accept_micros) as int, q);
    lemma_insert_descending(s, q);
    lemma_evict(n, q.accept_micros);
    let kept = evict(n, q.accept_micros).0;
    assert forall|a: int, b: int| 0 <= a < b < kept.len() implies #[trigger] kept[b].accept_micros
        <= #[trigger] kept[a].accept_micros by {
        assert(kept[a] == n[a] && kept[b] == n[b]);
    }
}

/// `q` inserted anywhere adds one `q` to what a buffer holds.
proof fn lemma_insert_multiset(s: Seq<QuoteView>, i: int, q: QuoteView)
    requires
        0 <= i <= s.len(),
    ensures
        s.insert(i, q).reverse().to_multiset() == s.reverse().to_multiset().insert(q),
{
    broadcast use vstd::seq_lib::lemma_multiset_commutative;
    broadcast use vstd::seq_lib::group_to_multiset_ensures;
    broadcast use vstd::multiset::group_multiset_axioms;

    let a = s.subrange(0, i);
    let b = s.subrange(i, s.len() as int);
    assert(s.insert(i, q) =~= a + seq![q] + b);
    assert(s =~= a + b);
    s.insert(i, q).lemma_reverse_to_multiset();
    s.lemma_reverse_to_multiset();
    assert(seq![q] =~= Seq::<QuoteView>::empty().push(q));
    assert((a + seq![q] + b).to_multiset() =~= (a + b).to_multiset().insert(q));
}

/// The running state of `feed_all`: the buffer stays in descending order,
/// and emissions followed by the buffer back to front hold exactly the
/// quotes fed, in feeding order among equal accept times.
proof fn lemma_feed_all(qs: Seq<QuoteView>)
    ensures
        descending(feed_all(qs).0),
        reorder_all(qs).to_multiset() == qs.to_multiset(),
        forall|t: u64| #[trigger] reorder_all(qs).filter(accepted_at(t)) == qs.filter(accepted_at(t)),
    decreases qs.len(),
{
    broadcast use vstd::seq_lib::lemma_multiset_commutative;
    broadcast use vstd::seq_lib::group_to_multiset_ensures;
    broadcast use vstd::multiset::group_multiset_axioms;

    if qs.len() == 0 {
        assert(reorder_all(qs) =~= qs);
    } else {
        let d = qs.drop_last();
        let q = qs.last();
        lemma_feed_all(d);
        let r = feed_all(d);
        let f = feed(r.0, q);
        let ins = r.0.insert(insert_index(r.0, q.accept_micros) as int, q);
        lemma_feed(r.0, q);
        lemma_insert_index(r.0, q.accept_micros);
        assert(qs =~= d + seq![q]);
        assert(reorder_all(qs) =~= r.1 + ins.reverse());
        assert(reorder_all(d) =~= r.1 + r.0.reverse());
        lemma_insert_multiset(r.0, insert_index(r.0, q.accept_micros) as int, q);
        assert(seq![q] =~= Seq::<QuoteView>::empty().push(q));
        assert(reorder_all(qs).to_multiset() =~= qs.to_multiset());
        assert forall|t: u64| #[trigger] reorder_all(qs).filter(accepted_at(t)) == qs.filter(
            accepted_at(t),
        ) by {
            let p = accepted_at(t);
            lemma_insert_ties(r.0, q, t);
            Seq::filter_distributes_over_add(r.1, ins.reverse(), p);
            Seq::filter_distributes_over_add(r.1, r.0.reverse(), p);
            Seq::filter_distributes_over_add(d, seq![q], p);
            assert(reorder_all(qs).filter(p) =~= reorder_all(d).filter(p) + seq![q].filter(p));
        }
    }
}

/// No quote is lost or duplicated: all that the buffer emits for `qs`, its
/// final flush included, is exactly `qs` as a multiset.
pub proof fn lemma_reorder_keeps_every_quote(qs: Seq<QuoteView>)
    ensures
        reorder_all(qs).to_multiset() == qs.to_multiset(),
{
    lemma_feed_all(qs);
}

/// Quotes with the same accept time leave the buffer in the order in which
/// they were fed to it.
pub proof fn lemma_reorder_keeps_ties_in_order(qs: Seq<QuoteView>, t: u64)
    ensures
        reorder_all(qs).filter(accepted_at(t)) == qs.filter(accepted_at(t)),
{
    lemma_feed_all(qs);
}

/// The buffer reached by feeding `qs` is in descending order of accept time.
pub proof fn lemma_feed_all_descending(qs: Seq<QuoteView>)
    ensures
        descending(feed_all(qs).0),
{
    lemma_feed_all(qs);
}

/// A buffer in descending order empties back to front in ascending order.
pub proof fn lemma_flush_ascending(s: Seq<QuoteView>)
    requires
        descending(s),
    ensures
        ascending(s.reverse()),
{
    assert forall|i: int, j: int| 0 <= i < j < s.reverse().len() implies #[trigger] s.reverse()[i].accept_micros
        <= #[trigger] s.reverse()[j].accept_micros by {
        assert(s.reverse()[i] == s[s.len() - 1 - i]);
        assert(s.reverse()[j] == s[s.len() - 1 - j]);
    }
}

/// Three quotes decoded in accept order T2, T1, T3, none overdue while they
/// arrive, then a fourth accepted late enough that all three are overdue
/// against it while it is not: nothing leaves before the fourth arrives, the
/// fourth lets the three out in accept order T1, T2, T3, and the final flush
/// emits the fourth.
pub proof fn lemma_late_quote_releases_in_accept_order(
    q1: QuoteView,
    q2: QuoteView,
    q3: QuoteView,
    qf: QuoteView,
)
    requires
        q1.accept_micros < q2.accept_micros < q3.accept_micros < qf.accept_micros,
        !overdue(q3.accept_micros, q1),
        !overdue(q3.accept_micros, q2),
        !overdue(q3.accept_micros, q3),
        overdue(qf.accept_micros, q1),
        overdue(qf.accept_micros, q2),
        overdue(qf.accept_micros, q3),
        !overdue(qf.accept_micros, qf),
    ensures
        feed_all(seq![q2, q1, q3]).1 == Seq::<QuoteView>::empty(),
        feed_all(seq![q2, q1, q3, qf]).1 == seq![q1, q2, q3],
        reorder_all(seq![q2, q1, q3, qf]) == seq![q1, q2, q3, qf],
{
    let e = Seq::<QuoteView>::empty();
    // the first quote
    assert(seq![q2].drop_last() =~= e);
    assert(e.insert(0, q2) =~= seq![q2]);
    assert(feed_all(e) == (e, e));
    assert(feed(e, q2) == (seq![q2], e));
    assert(feed_all(seq![q2]) == (seq![q2], e + e));
    assert(e + e =~= e);
    // the second, behind the first
    assert(seq![q2, q1].drop_last() =~= seq![q2]);
    assert(seq![q2].drop_first() =~= e);
    assert(insert_index(e, q1.accept_micros) == 0);
    assert(insert_index(seq![q2], q1.accept_micros) == 1);
    assert(seq![q2].insert(1, q1) =~= seq![q2, q1]);
    assert(feed(seq![q2], q1) == (seq![q2, q1], e));
    assert(feed_all(seq![q2, q1]) == (seq![q2, q1], e));
    // the third, in front
    assert(seq![q2, q1, q3].drop_last() =~= seq![q2, q1]);
    assert(insert_index(seq![q2, q1], q3.accept_micros) == 0);
    assert(seq![q2, q1].insert(0, q3) =~= seq![q3, q2, q1]);
    assert(feed(seq![q2, q1], q3) == (seq![q3, q2, q1], e));
    assert(feed_all(seq![q2, q1, q3]) == (seq![q3, q2, q1], e));
    // the fourth, in front, releasing the other three
    let s4 = seq![qf, q3, q2, q1];
    assert(seq![q2, q1, q3, qf].drop_last() =~= seq![q2, q1, q3]);
    assert(insert_index(seq![q3, q2, q1], qf.accept_micros) == 0);
    assert(seq![q3, q2, q1].insert(0, qf) =~= s4);
    assert(s4.drop_last() =~= seq![qf, q3, q2]);
    assert(seq![qf, q3, q2].drop_last() =~= seq![qf, q3]);
    assert(seq![qf, q3].drop_last() =~= seq![qf]);
    let a = qf.accept_micros;
    assert(evict(seq![qf], a) == (seq![qf], e));
    assert(evict(seq![qf, q3], a) == (seq![qf], seq![q3] + e));
    assert(seq![q3] + e =~= seq![q3]);
    assert(evict(seq![qf, q3, q2], a) == (seq![qf], seq![q2] + seq![q3]));
    assert(seq![q2] + seq![q3] =~= seq![q2, q3]);
    assert(evict(s4, a) == (seq![qf], seq![q1] + seq![q2, q3]));
    assert(seq![q1] + seq![q2, q3] =~= seq![q1, q2, q3]);
    assert(feed(seq![q3, q2, q1], qf) == (seq![qf], seq![q1, q2, q3]));
    assert(e + seq![q1, q2, q3] =~= seq![q1, q2, q3]);
    assert(seq![qf].reverse() =~= seq![qf]);
    assert(seq![q1, q2, q3] + seq![qf] =~= seq![q1, q2, q3, qf]);
}

/// A buffer of quotes held in descending order of accept time, front to back.
pub struct ReorderBuffer {
    queue: Vec<QuotePackets>,
}

impl View for ReorderBuffer {
    type V = Seq<QuoteView>;

    closed spec fn view(&self) -> Seq<QuoteView> {
        quotes_view(self.queue@)
    }
}

impl ReorderBuffer {
    /// The buffer holds its quotes in descending order of accept time.
    pub open spec fn wf(&self) -> bool {
        descending(self@)
    }

    /// An empty buffer.
    pub fn new() -> (r: Self)
        ensures
            r@ == Seq::<QuoteView>::empty(),
            r.wf(),
    {
        let r = ReorderBuffer { queue: Vec::new() };
        assert(r@ =~= Seq::<QuoteView>::empty());
        r
    }

    /// The number of quotes held.
    pub fn len(&self) -> (r: usize)
        ensures
            r == self@.len(),
    {
        self.queue.len()
    }

    /// Inserts `quote` in order of accept time, after any buffered quote
    /// with the same accept time, then emits from the back every quote whose
    /// capture time lies more than `MAX_DELAY_MICROS` behind the accept time
    /// of `quote`, oldest first.
    pub fn push(&mut self, quote: QuotePackets) -> (emitted: Vec<QuotePackets>)
        requires
            old(self).wf(),
        ensures
            final(self).wf(),
            final(self)@ == feed(old(self)@, quote@).0,
            quotes_view(emitted@) == feed(old(self)@, quote@).1,
            forall|k: int|
                0 <= k < emitted@.len() ==> overdue(quote@.accept_micros, #[trigger] emitted@[k]@),
            final(self)@.len() > 0 ==> !overdue(quote@.accept_micros, final(self)@.last()),
            quotes_view(emitted@) + final(self)@.reverse() == old(self)@.insert(
                insert_index(old(self)@, quote@.accept_micros) as int,
                quote@,
            ).reverse(),
    {
        let ghost s = self@;
        let now = quote.accept_time_microseconds_total;
        let mut idx: usize = 0;
        while idx < self.queue.len() && self.queue[idx].accept_time_microseconds_total > now
            invariant
                self@ == s,
                idx <= s.len(),
                forall|k: int| 0 <= k < idx ==> s[k].accept_micros > now,
            decreases s.len() - idx,
        {
            idx = idx + 1;
        }
        proof {
            lemma_insert_index_unique(s, now, idx as int);
            lemma_feed(s, quote@);
            lemma_evict(s.insert(idx as int, quote@), now);
        }
        let ghost q = quote@;
        self.queue.insert(idx, quote);
        let ghost n = s.insert(idx as int, q);
        assert(self@ =~= n);
        proof {
            lemma_insert_descending(s, q);
        }

        let mut emitted: Vec<QuotePackets> = Vec::new();
        loop
            invariant
                descending(self@),
                self@.len() <= n.len(),
                self@ == n.subrange(0, self@.len() as int),
                evict(n, now).0 == evict(self@, now).0,
                evict(n, now).1 == quotes_view(emitted@) + evict(self@, now).1,
            ensures
                self@ == evict(n, now).0,
                quotes_view(emitted@) == evict(n, now).1,
            decreases self.queue.len(),
        {
            let len = self.queue.len();
            if len == 0 {
                assert(evict(self@, now).1 =~= Seq::<QuoteView>::empty());
                assert(quotes_view(emitted@) + Seq::<QuoteView>::empty() =~= quotes_view(emitted@));
                break;
            }
            let capture = self.queue[len - 1].pkt_time_microseconds_total;
            if (now as i128) - (capture as i128) > MAX_DELAY_MICROS {
                let ghost cur = self@;
                let ghost before = quotes_view(emitted@);
                let back = self.queue.pop().unwrap();
                emitted.push(back);
                assert(self@ =~= cur.drop_last());
                assert(quotes_view(emitted@) =~= before.push(cur.last()));
                assert(before + evict(cur, now).1 =~= quotes_view(emitted@) + evict(self@, now).1);
                assert(self@ =~= n.subrange(0, self@.len() as int));
            } else {
                assert(evict(self@, now).1 =~= Seq::<QuoteView>::empty());
                assert(quotes_view(emitted@) + Seq::<QuoteView>::empty() =~= quotes_view(emitted@));
                break;
            }
        }
        assert forall|k: int| 0 <= k < emitted@.len() implies overdue(
            now,
            #[trigger] emitted@[k]@,
        ) by {
            assert(quotes_view(emitted@)[k] == emitted@[k]@);
        }
        emitted
    }

    /// Empties the buffer from the back: every quote it held, in ascending
    /// order of accept time.
    pub fn flush(&mut self) -> (out: Vec<QuotePackets>)
        requires
            old(self).wf(),
        ensures
            final(self).wf(),
            final(self)@ == Seq::<QuoteView>::empty(),
            quotes_view(out@) == old(self)@.reverse(),
            ascending(quotes_view(out@)),
    {
        let ghost s = self@;
        let mut out: Vec<QuotePackets> = Vec::new();
        while self.queue.len() > 0
            invariant
                self@.len() <= s.len(),
                self@ == s.subrange(0, self@.len() as int),
                quotes_view(out@) == s.subrange(self@.len() as int, s.len() as int).reverse(),
            decreases self.queue.len(),
        {
            let ghost cur = self@;
            let ghost before = quotes_view(out@);
            let back = self.queue.pop().unwrap();
            out.push(back);
            assert(self@ =~= cur.drop_last());
            assert(quotes_view(out@) =~= before.push(cur.last()));
            assert(self@ =~= s.subrange(0, self@.len() as int));
            assert(quotes_view(out@) =~= s.subrange(self@.len() as int, s.len() as int).reverse());
        }
        assert(self@ =~= Seq::<QuoteView>::empty());
        assert(s.subrange(0, s.len() as int) =~= s);
        proof {
            lemma_flush_ascending(s);
        }
        out
    }
}

} // verus!
