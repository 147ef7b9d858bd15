//! Weighted tag aggregation. The caller walks the artist list in order;
//! before each artist's fetch it waits the throttle delay, then reports the
//! outcome here: a successful fetch folds the artist's play count into the
//! running total of every tag name the response carried (once per
//! occurrence), a failed fetch contributes nothing and the run continues.
//! `weight` is the spec-level account of those totals; the machine's
//! invariant keeps one entry per distinct tag name observed so far, holding
//! exactly its weight.

use crate::records::Tag;
use crate::records::TagView;
use crate::records::TopTag;
use crate::records::TopTagView;
use crate::records::tag_views;
use crate::records::top_tag_views;
use vstd::prelude::*;

verus! {

/// What one artist's tag fetch came to: the artist's play count, and the
/// decoded tags when the fetch succeeded.
pub struct OutcomeView {
    pub playcount: u32,
    pub tags: Option<Seq<TagView>>,
}

/// How often `name` occurs in a tag response.
pub open spec fn occurrences(ts: Seq<TagView>, name: Seq<char>) -> int
    decreases ts.len(),
{
    if ts.len() == 0 {
        0
    } else {
        occurrences(ts.drop_last(), name) + (if ts.last().name == name {
            1int
        } else {
            0int
        })
    }
}

pub open spec fn outcome_mentions(o: OutcomeView, name: Seq<char>) -> bool {
    match o.tags {
        Some(ts) => exists|j: int| 0 <= j < ts.len() && (#[trigger] ts[j]).name == name,
        None => false,
    }
}

/// What one outcome adds to a tag name's total: its play count once per
/// occurrence of the name, and nothing at all on a failed fetch.
pub open spec fn contribution(o: OutcomeView, name: Seq<char>) -> int {
    match o.tags {
        Some(ts) => o.playcount as int * occurrences(ts, name),
        None => 0,
    }
}

/// The total accumulated for `name` over a run of outcomes.
pub open spec fn weight(outs: Seq<OutcomeView>, name: Seq<char>) -> int
    decreases outs.len(),
{
    if outs.len() == 0 {
        0
    } else {
        weight(outs.drop_last(), name) + contribution(outs.last(), name)
    }
}

/// Whether some successful outcome's response carried `name`.
pub open spec fn observed(outs: Seq<OutcomeView>, name: Seq<char>) -> bool {
    exists|i: int| 0 <= i < outs.len() && outcome_mentions(#[trigger] outs[i], name)
}

/// Whether the entry list holds `name`.
pub open spec fn has_name(s: Seq<TopTagView>, name: Seq<char>) -> bool {
    exists|a: int| 0 <= a < s.len() && (#[trigger] s[a]).name == name
}

/// Whether folding one more successful outcome would keep every total
/// within `u32`.
pub open spec fn fits(outs: Seq<OutcomeView>, playcount: u32, ts: Seq<TagView>) -> bool {
    forall|name: Seq<char>|
        weight(outs, name) + playcount as int * #[trigger] occurrences(ts, name) <= u32::MAX
}

proof fn lemma_occ_nonneg(ts: Seq<TagView>, name: Seq<char>)
    ensures
        occurrences(ts, name) >= 0,
    decreases ts.len(),
{
    if ts.len() > 0 {
        lemma_occ_nonneg(ts.drop_last(), name);
    }
}

proof fn lemma_occ_step(ts: Seq<TagView>, name: Seq<char>, k: int)
    requires
        0 <= k < ts.len(),
    ensures
        occurrences(ts.subrange(0, k + 1), name) == occurrences(ts.subrange(0, k), name) + (if
        ts[k].name == name {
            1int
        } else {
            0int
        }),
{
    assert(ts.subrange(0, k + 1).drop_last() =~= ts.subrange(0, k));
    assert(ts.subrange(0, k + 1).last() == ts[k]);
}

proof fn lemma_occ_prefix(ts: Seq<TagView>, name: Seq<char>, k: int)
    requires
        0 <= k <= ts.len(),
    ensures
        occurrences(ts.subrange(0, k), name) <= occurrences(ts, name),
    decreases ts.len(),
{
    if k < ts.len() {
        assert(ts.drop_last().subrange(0, k) =~= ts.subrange(0, k));
        lemma_occ_prefix(ts.drop_last(), name, k);
    } else {
        assert(ts.subrange(0, k) =~= ts);
    }
}

proof fn lemma_occ_pos_iff(ts: Seq<TagView>, name: Seq<char>)
    ensures
        (occurrences(ts, name) > 0) <==> (exists|j: int|
            0 <= j < ts.len() && (#[trigger] ts[j]).name == name),
    decreases ts.len(),
{
    if ts.len() > 0 {
        let dl = ts.drop_last();
        lemma_occ_pos_iff(dl, name);
        lemma_occ_nonneg(dl, name);
        if ts.last().name == name {
            assert((ts[ts.len() - 1]).name == name);
        } else {
            if occurrences(ts, name) > 0 {
                let j = choose|j: int| 0 <= j < dl.len() && (#[trigger] dl[j]).name == name;
                assert((ts[j]).name == name);
            }
            if exists|j: int| 0 <= j < ts.len() && (#[trigger] ts[j]).name == name {
                let j = choose|j: int| 0 <= j < ts.len() && (#[trigger] ts[j]).name == name;
                assert(j < ts.len() - 1);
                assert((dl[j]).name == name);
            }
        }
    }
}

proof fn lemma_mul_zero(a: int, b: int)
    requires
        b == 0,
    ensures
        a * b == 0,
{
    assert(a * b == 0) by (nonlinear_arith)
        requires
            b == 0;
}

proof fn lemma_mul_mono(a: int, b: int, c: int)
    requires
        0 <= a,
        b <= c,
    ensures
        a * b <= a * c,
{
    assert(a * b <= a * c) by (nonlinear_arith)
        requires
            0 <= a,
            b <= c;
}

proof fn lemma_unfold_mul_succ(a: int, b: int)
    ensures
        a * (b + 1) == a * b + a,
{
    assert(a * (b + 1) == a * b + a) by (nonlinear_arith);
}

proof fn lemma_unobserved_weight_zero(outs: Seq<OutcomeView>, name: Seq<char>)
    requires
        !observed(outs, name),
    ensures
        weight(outs, name) == 0,
    decreases outs.len(),
{
    if outs.len() > 0 {
        let dl = outs.drop_last();
        assert(!observed(dl, name)) by {
            if observed(dl, name) {
                let i = choose|i: int| 0 <= i < dl.len() && outcome_mentions(#[trigger] dl[i], name);
                assert(outcome_mentions(outs[i], name));
            }
        }
        lemma_unobserved_weight_zero(dl, name);
        let o = outs.last();
        assert(!outcome_mentions(o, name)) by {
            if outcome_mentions(o, name) {
                assert(outcome_mentions(outs[outs.len() - 1], name));
            }
        }
        match o.tags {
            Some(ts) => {
                lemma_occ_pos_iff(ts, name);
                lemma_occ_nonneg(ts, name);
                assert(occurrences(ts, name) == 0);
                lemma_mul_zero(o.playcount as int, occurrences(ts, name));
                assert(contribution(o, name) == 0);
            },
            None => {},
        }
    }
}

proof fn lemma_weight_push(outs: Seq<OutcomeView>, o: OutcomeView, name: Seq<char>)
    ensures
        weight(outs.push(o), name) == weight(outs, name) + contribution(o, name),
{
    assert(outs.push(o).drop_last() =~= outs);
    assert(outs.push(o).last() == o);
}

proof fn lemma_observed_push(outs: Seq<OutcomeView>, o: OutcomeView, name: Seq<char>)
    ensures
        observed(outs.push(o), name) <==> (observed(outs, name) || outcome_mentions(o, name)),
{
    if observed(outs.push(o), name) {
        let i = choose|i: int|
            0 <= i < outs.push(o).len() && outcome_mentions(#[trigger] outs.push(o)[i], name);
        if i < outs.len() {
            assert(outcome_mentions(outs[i], name));
        } else {
            assert(outs.push(o)[i] == o);
        }
    }
    if observed(outs, name) {
        let i = choose|i: int| 0 <= i < outs.len() && outcome_mentions(#[trigger] outs[i], name);
        assert(outcome_mentions(outs.push(o)[i], name));
    }
    if outcome_mentions(o, name) {
        assert(outcome_mentions(outs.push(o)[outs.len() as int], name));
    }
}

/// Finds the entry carrying `name`, if one exists.
fn find_total(totals: &Vec<TopTag>, name: &String) -> (r: Option<usize>)
    ensures
        match r {
            Some(i) => 0 <= i < totals@.len() && top_tag_views(totals@)[i as int].name == name@,
            None => !has_name(top_tag_views(totals@), name@),
        },
{
    let n = totals.len();
    let mut i: usize = 0;
    while i < n
        invariant
            0 <= i <= n,
            n == totals@.len(),
            forall|a: int| 0 <= a < i ==> (#[trigger] top_tag_views(totals@)[a]).name != name@,
        decreases n - i,
    {
        if totals[i].name.eq(name) {
            return Some(i);
        }
        i = i + 1;
    }
    proof {
        if has_name(top_tag_views(totals@), name@) {
            let a = choose|a: int|
                0 <= a < top_tag_views(totals@).len() && (#[trigger] top_tag_views(totals@)[a]).name
                    == name@;
            assert(false);
        }
    }
    None
}

/// The three-part account the aggregator maintains: entries carry distinct
/// names; each entry's play count is exactly its name's weight over the
/// outcomes, and its name was observed; and every observed name has an
/// entry.
pub open spec fn totals_ok(ents: Seq<TopTagView>, outs: Seq<OutcomeView>) -> bool {
    &&& distinct_entry_names(ents)
    &&& forall|a: int|
        0 <= a < ents.len() ==> observed(outs, (#[trigger] ents[a]).name) && ents[a].play_count
            == weight(outs, ents[a].name)
    &&& forall|name: Seq<char>| #[trigger] observed(outs, name) ==> has_name(ents, name)
}

pub struct TagAggregator {
    totals: Vec<TopTag>,
    outcomes: Ghost<Seq<OutcomeView>>,
}

impl TagAggregator {
    /// The outcomes reported so far, in artist-list order.
    pub closed spec fn outcomes(self) -> Seq<OutcomeView> {
        self.outcomes@
    }

    /// The running totals: one entry per distinct observed tag name.
    pub closed spec fn totals_seq(self) -> Seq<TopTagView> {
        top_tag_views(self.totals@)
    }

    pub open spec fn inv(self) -> bool {
        totals_ok(self.totals_seq(), self.outcomes())
    }

    pub fn new() -> (r: TagAggregator)
        ensures
            r.inv(),
            r.outcomes() == Seq::<OutcomeView>::empty(),
            r.totals_seq() == Seq::<TopTagView>::empty(),
    {
        let r = TagAggregator { totals: Vec::new(), outcomes: Ghost(Seq::empty()) };
        proof {
            assert(r.totals_seq() =~= Seq::<TopTagView>::empty());
        }
        r
    }

    /// Records that an artist's tag fetch failed: the totals are untouched
    /// and the run goes on. The caller emits its diagnostic naming the
    /// artist.
    pub fn record_failure(&mut self, playcount: u32)
        requires
            old(self).inv(),
        ensures
            final(self).inv(),
            final(self).outcomes() == old(self).outcomes().push(
                OutcomeView { playcount, tags: None },
            ),
            final(self).totals_seq() == old(self).totals_seq(),
    {
        proof {
            let o = OutcomeView { playcount, tags: None };
            let ents = self.totals_seq();
            let outs = self.outcomes@;
            assert(totals_ok(ents, outs));
            self.outcomes@ = outs.push(o);
            assert forall|a: int|
                0 <= a < ents.len() implies observed(outs.push(o), (#[trigger] ents[a]).name)
                && ents[a].play_count == weight(outs.push(o), ents[a].name) by {
                assert(observed(outs, ents[a].name) && ents[a].play_count == weight(
                    outs,
                    ents[a].name,
                ));
                lemma_weight_push(outs, o, ents[a].name);
                lemma_observed_push(outs, o, ents[a].name);
            }
            assert forall|name: Seq<char>| #[trigger]
                observed(outs.push(o), name) implies has_name(ents, name) by {
                lemma_observed_push(outs, o, name);
                assert(observed(outs, name));
            }
            assert(totals_ok(ents, outs.push(o)));
        }
    }

    /// Folds one successful fetch into the totals: for every occurrence of
    /// a tag name in the response, the artist's play count is added to that
    /// name's entry, creating it at zero first if the name is new. If some
    /// total would leave `u32` the state is left untouched and `false`
    /// comes back; the caller treats that as the fatal arithmetic fault it
    /// is.
    pub fn record_success(&mut self, playcount: u32, tags: &Vec<Tag>) -> (ok: bool)
        requires
            old(self).inv(),
        ensures
            final(self).inv(),
            ok == fits(old(self).outcomes(), playcount, tag_views(tags@)),
            ok ==> final(self).outcomes() == old(self).outcomes().push(
                OutcomeView { playcount, tags: Some(tag_views(tags@)) },
            ),
            !ok ==> *final(self) == *old(self),
    {
        let ghost ts = tag_views(tags@);
        let ghost outs = self.outcomes@;
        let n = tags.len();
        // First pass: check that every affected total stays within u32.
        let mut j: usize = 0;
        while j < n
            invariant
                0 <= j <= n,
                n == tags@.len(),
                ts == tag_views(tags@),
                outs == self.outcomes@,
                self.inv(),
                *self == *old(self),
                forall|jj: int|
                    0 <= jj < j ==> weight(outs, (#[trigger] ts[jj]).name) + playcount as int
                        * occurrences(ts, ts[jj].name) <= u32::MAX,
            decreases n - j,
        {
            let ghost name = ts[j as int].name;
            let mut cnt: u64 = 0;
            let mut k: usize = 0;
            while k < n
                invariant
                    0 <= k <= n,
                    n == tags@.len(),
                    ts == tag_views(tags@),
                    0 <= j < n,
                    name == ts[j as int].name,
                    0 <= cnt <= k,
                    cnt == occurrences(ts.subrange(0, k as int), name),
                decreases n - k,
            {
                proof {
                    lemma_occ_step(ts, name, k as int);
                }
                if tags[k].name.eq(&tags[j].name) {
                    cnt = cnt + 1;
                } else {
                    assert(ts[k as int].name != name);
                }
                k = k + 1;
            }
            proof {
                assert(ts.subrange(0, n as int) =~= ts);
                assert(cnt == occurrences(ts, name));
            }
            let cur: u64 = match find_total(&self.totals, &tags[j].name) {
                Some(idx) => {
                    proof {
                        assert(observed(self.outcomes(), (self.totals_seq()[idx as int]).name)
                            && self.totals_seq()[idx as int].play_count == weight(
                            self.outcomes(),
                            self.totals_seq()[idx as int].name,
                        ));
                        assert(self.totals_seq()[idx as int].play_count == weight(outs, name));
                    }
                    self.totals[idx].play_count as u64
                },
                None => {
                    proof {
                        if observed(outs, name) {
                            assert(observed(self.outcomes(), name));
                            assert(has_name(self.totals_seq(), name));
                            assert(false);
                        }
                        lemma_unobserved_weight_zero(outs, name);
                    }
                    0u64
                },
            };
            proof {
                lemma_mul_mono(playcount as int, cnt as int, u64::MAX as int);
                assert(cur as int == weight(outs, name));
            }
            let need: u128 = cur as u128 + (playcount as u128) * (cnt as u128);
            if need > u32::MAX as u128 {
                proof {
                    assert(weight(outs, name) + playcount as int * occurrences(ts, name)
                        > u32::MAX);
                    assert(!fits(outs, playcount, ts));
                }
                return false;
            }
            j = j + 1;
        }
        proof {
            assert forall|name: Seq<char>|
                weight(outs, name) + playcount as int * #[trigger] occurrences(ts, name)
                    <= u32::MAX by {
                lemma_occ_nonneg(ts, name);
                if occurrences(ts, name) > 0 {
                    lemma_occ_pos_iff(ts, name);
                    let jj = choose|jj: int| 0 <= jj < ts.len() && (#[trigger] ts[jj]).name == name;
                    assert(weight(outs, (ts[jj]).name) + playcount as int * occurrences(
                        ts,
                        ts[jj].name,
                    ) <= u32::MAX);
                } else {
                    lemma_mul_zero(playcount as int, occurrences(ts, name));
                    if observed(outs, name) {
                        assert(observed(self.outcomes(), name));
                        assert(has_name(self.totals_seq(), name));
                        let a = choose|a: int|
                            0 <= a < self.totals_seq().len() && (#[trigger] self.totals_seq()[a]).name
                                == name;
                        assert(observed(self.outcomes(), (self.totals_seq()[a]).name)
                            && self.totals_seq()[a].play_count == weight(
                            self.outcomes(),
                            self.totals_seq()[a].name,
                        ));
                        assert(weight(outs, name) <= u32::MAX);
                    } else {
                        lemma_unobserved_weight_zero(outs, name);
                    }
                }
            }
            assert(fits(outs, playcount, ts));
        }
        // Second pass: fold every occurrence in.
        let mut j2: usize = 0;
        while j2 < n
            invariant
                0 <= j2 <= n,
                n == tags@.len(),
                ts == tag_views(tags@),
                outs == self.outcomes@,
                fits(outs, playcount, ts),
                forall|a: int, b: int|
                    0 <= a < b < self.totals_seq().len() ==> (#[trigger] self.totals_seq()[a]).name
                        != (#[trigger] self.totals_seq()[b]).name,
                forall|a: int|
                    0 <= a < self.totals_seq().len() ==> (#[trigger] self.totals_seq()[a]).play_count
                        == weight(outs, self.totals_seq()[a].name) + playcount as int * occurrences(
                        ts.subrange(0, j2 as int),
                        self.totals_seq()[a].name,
                    ),
                forall|name: Seq<char>|
                    #![trigger observed(outs, name)]
                    #![trigger occurrences(ts.subrange(0, j2 as int), name)]
                    (observed(outs, name) || occurrences(ts.subrange(0, j2 as int), name) > 0)
                        <==> has_name(self.totals_seq(), name),
            decreases n - j2,
        {
            let ghost name = ts[j2 as int].name;
            let ghost prefix = ts.subrange(0, j2 as int);
            let ghost prefix1 = ts.subrange(0, j2 as int + 1);
            proof {
                lemma_occ_step(ts, name, j2 as int);
                lemma_occ_prefix(ts, name, j2 as int + 1);
                lemma_occ_nonneg(prefix, name);
                lemma_occ_pos_iff(ts, name);
                assert((ts[j2 as int]).name == name);
                assert(occurrences(ts, name) > 0);
            }
            match find_total(&self.totals, &tags[j2].name) {
                Some(idx) => {
                    let ghost prev = self.totals_seq();
                    proof {
                        assert((prev[idx as int]).play_count == weight(outs, name)
                            + playcount as int * occurrences(prefix, name));
                        assert(weight(outs, name) + playcount as int * occurrences(ts, name)
                            <= u32::MAX);
                        lemma_mul_mono(
                            playcount as int,
                            occurrences(prefix1, name),
                            occurrences(ts, name),
                        );
                        lemma_unfold_mul_succ(playcount as int, occurrences(prefix, name));
                    }
                    let nm = self.totals[idx].name.clone();
                    let pv = self.totals[idx].play_count;
                    self.totals.set(idx, TopTag { name: nm, play_count: pv + playcount });
                    proof {
                        assert(self.totals_seq() =~= prev.update(
                            idx as int,
                            TopTagView { name, play_count: (pv + playcount) as u32 },
                        ));
                        assert forall|a: int|
                            0 <= a < self.totals_seq().len() implies (
                        #[trigger] self.totals_seq()[a]).play_count == weight(
                            outs,
                            self.totals_seq()[a].name,
                        ) + playcount as int * occurrences(prefix1, self.totals_seq()[a].name) by {
                            let nm2 = self.totals_seq()[a].name;
                            lemma_occ_step(ts, nm2, j2 as int);
                            if a != idx {
                                assert(self.totals_seq()[a] == prev[a]);
                                assert((prev[a]).play_count == weight(outs, (prev[a]).name)
                                    + playcount as int * occurrences(prefix, (prev[a]).name));
                                assert((prev[a]).name != (prev[idx as int]).name);
                                assert(nm2 != name);
                                assert(occurrences(prefix1, nm2) == occurrences(prefix, nm2));
                            } else {
                                assert(occurrences(prefix1, name) == occurrences(prefix, name) + 1);
                            }
                        }
                        assert forall|name2: Seq<char>|
                            #![trigger observed(outs, name2)]
                            #![trigger occurrences(prefix1, name2)]
                            (observed(outs, name2) || occurrences(prefix1, name2) > 0)
                                <==> has_name(self.totals_seq(), name2) by {
                            lemma_occ_step(ts, name2, j2 as int);
                            lemma_occ_nonneg(prefix, name2);
                            assert(prev.len() == self.totals_seq().len());
                            if observed(outs, name2) || occurrences(prefix1, name2) > 0 {
                                if name2 == name {
                                    assert((self.totals_seq()[idx as int]).name == name2);
                                    assert(has_name(self.totals_seq(), name2));
                                } else {
                                    assert(occurrences(prefix1, name2) == occurrences(
                                        prefix,
                                        name2,
                                    ));
                                    assert(observed(outs, name2) || occurrences(prefix, name2)
                                        > 0);
                                    assert(has_name(prev, name2));
                                    let a = choose|a: int|
                                        0 <= a < prev.len() && (#[trigger] prev[a]).name == name2;
                                    if a == idx {
                                        assert(false);
                                    }
                                    assert((self.totals_seq()[a]).name == name2);
                                    assert(has_name(self.totals_seq(), name2));
                                }
                            }
                            if has_name(self.totals_seq(), name2) {
                                let a = choose|a: int|
                                    0 <= a < self.totals_seq().len() && (
                                    #[trigger] self.totals_seq()[a]).name == name2;
                                if a == idx {
                                    assert(occurrences(prefix1, name) > 0);
                                } else {
                                    assert((prev[a]).name == name2);
                                    assert(has_name(prev, name2));
                                    assert(observed(outs, name2) || occurrences(prefix, name2)
                                        > 0);
                                }
                            }
                        }
                    }
                },
                None => {
                    let ghost prev = self.totals_seq();
                    proof {
                        if observed(outs, name) || occurrences(prefix, name) > 0 {
                            assert(has_name(prev, name));
                            let a = choose|a: int|
                                0 <= a < prev.len() && (#[trigger] prev[a]).name == name;
                            assert(false);
                        }
                        lemma_unobserved_weight_zero(outs, name);
                    }
                    self.totals.push(TopTag { name: tags[j2].name.clone(), play_count: playcount });
                    proof {
                        assert(self.totals_seq() =~= prev.push(
                            TopTagView { name, play_count: playcount },
                        ));
                        assert forall|a: int|
                            0 <= a < self.totals_seq().len() implies (
                        #[trigger] self.totals_seq()[a]).play_count == weight(
                            outs,
                            self.totals_seq()[a].name,
                        ) + playcount as int * occurrences(prefix1, self.totals_seq()[a].name) by {
                            let nm2 = self.totals_seq()[a].name;
                            lemma_occ_step(ts, nm2, j2 as int);
                            if a < prev.len() {
                                assert(self.totals_seq()[a] == prev[a]);
                                assert((prev[a]).play_count == weight(outs, (prev[a]).name)
                                    + playcount as int * occurrences(prefix, (prev[a]).name));
                                assert(has_name(prev, (prev[a]).name));
                                if nm2 == name {
                                    assert(false);
                                }
                                assert(occurrences(prefix1, nm2) == occurrences(prefix, nm2));
                            } else {
                                assert(self.totals_seq()[a] == TopTagView {
                                    name,
                                    play_count: playcount,
                                });
                                assert(occurrences(prefix, name) == 0);
                                assert(occurrences(prefix1, name) == 1);
                                lemma_mul_zero(playcount as int, occurrences(prefix, name));
                                lemma_unfold_mul_succ(playcount as int, 0);
                            }
                        }
                        assert forall|a: int, b: int|
                            0 <= a < b < self.totals_seq().len() implies (
                        #[trigger] self.totals_seq()[a]).name != (
                        #[trigger] self.totals_seq()[b]).name by {
                            if b == prev.len() {
                                assert(self.totals_seq()[a] == prev[a]);
                                assert(has_name(prev, (prev[a]).name));
                                if (prev[a]).name == name {
                                    assert(false);
                                }
                            } else {
                                assert(self.totals_seq()[a] == prev[a]);
                                assert(self.totals_seq()[b] == prev[b]);
                            }
                        }
                        assert forall|name2: Seq<char>|
                            #![trigger observed(outs, name2)]
                            #![trigger occurrences(prefix1, name2)]
                            (observed(outs, name2) || occurrences(prefix1, name2) > 0)
                                <==> has_name(self.totals_seq(), name2) by {
                            lemma_occ_step(ts, name2, j2 as int);
                            lemma_occ_nonneg(prefix, name2);
                            if observed(outs, name2) || occurrences(prefix1, name2) > 0 {
                                if name2 == name {
                                    assert((self.totals_seq()[prev.len() as int]).name == name2);
                                    assert(has_name(self.totals_seq(), name2));
                                } else {
                                    assert(occurrences(prefix1, name2) == occurrences(
                                        prefix,
                                        name2,
                                    ));
                                    assert(has_name(prev, name2));
                                    let a = choose|a: int|
                                        0 <= a < prev.len() && (#[trigger] prev[a]).name == name2;
                                    assert((self.totals_seq()[a]).name == name2);
                                    assert(has_name(self.totals_seq(), name2));
                                }
                            }
                            if has_name(self.totals_seq(), name2) {
                                let a = choose|a: int|
                                    0 <= a < self.totals_seq().len() && (
                                    #[trigger] self.totals_seq()[a]).name == name2;
                                if a == prev.len() {
                                    assert(occurrences(prefix1, name) > 0);
                                } else {
                                    assert((prev[a]).name == name2);
                                    assert(has_name(prev, name2));
                                    assert(observed(outs, name2) || occurrences(prefix, name2)
                                        > 0);
                                }
                            }
                        }
                    }
                },
            }
            j2 = j2 + 1;
        }
        // Finally, account the outcome itself.
        proof {
            let o = OutcomeView { playcount, tags: Some(ts) };
            let ents = self.totals_seq();
            assert(ts.subrange(0, n as int) =~= ts);
            self.outcomes@ = outs.push(o);
            assert forall|a: int|
                0 <= a < ents.len() implies observed(outs.push(o), (#[trigger] ents[a]).name)
                && ents[a].play_count == weight(outs.push(o), ents[a].name) by {
                let nm = ents[a].name;
                assert(ents[a].play_count == weight(outs, nm) + playcount as int * occurrences(
                    ts.subrange(0, n as int),
                    nm,
                ));
                lemma_weight_push(outs, o, nm);
                lemma_observed_push(outs, o, nm);
                lemma_occ_pos_iff(ts, nm);
                lemma_occ_nonneg(ts, nm);
                assert(observed(outs, nm) || occurrences(ts.subrange(0, n as int), nm) > 0);
                if occurrences(ts, nm) > 0 {
                    assert(outcome_mentions(o, nm));
                } else {
                    lemma_mul_zero(playcount as int, occurrences(ts, nm));
                }
            }
            assert forall|name2: Seq<char>| #[trigger]
                observed(outs.push(o), name2) implies has_name(ents, name2) by {
                lemma_observed_push(outs, o, name2);
                lemma_occ_pos_iff(ts, name2);
                if outcome_mentions(o, name2) {
                    assert(occurrences(ts, name2) > 0);
                    lemma_occ_nonneg(ts.subrange(0, n as int), name2);
                    assert(occurrences(ts.subrange(0, n as int), name2) > 0);
                } else {
                    assert(observed(outs, name2));
                }
            }
            assert(totals_ok(ents, outs.push(o)));
        }
        true
    }
}

/// Ascending by play count; ties may sit in any order.
pub open spec fn sorted_by_count(s: Seq<TopTagView>) -> bool {
    forall|a: int, b: int|
        0 <= a < b < s.len() ==> (#[trigger] s[a]).play_count <= (#[trigger] s[b]).play_count
}

pub open spec fn distinct_entry_names(s: Seq<TopTagView>) -> bool {
    forall|a: int, b: int|
        0 <= a < b < s.len() ==> (#[trigger] s[a]).name != (#[trigger] s[b]).name
}

/// A rearrangement of an entry list with pairwise distinct names has
/// pairwise distinct names itself.
proof fn lemma_permutation_keeps_names_distinct(rv: Seq<TopTagView>, tv: Seq<TopTagView>)
    requires
        rv.to_multiset() == tv.to_multiset(),
        distinct_entry_names(tv),
    ensures
        distinct_entry_names(rv),
{
    broadcast use vstd::seq_lib::group_to_multiset_ensures;
    broadcast use vstd::multiset::group_multiset_axioms;

    assert(tv.no_duplicates()) by {
        assert forall|i: int, j: int|
            0 <= i < tv.len() && 0 <= j < tv.len() && i != j implies tv[i] != tv[j] by {
            if i < j {
                assert(tv[i].name != tv[j].name);
            } else {
                assert(tv[j].name != tv[i].name);
            }
        }
    }
    tv.lemma_multiset_has_no_duplicates();
    assert forall|a: int, b: int|
        0 <= a < b < rv.len() implies (#[trigger] rv[a]).name != (#[trigger] rv[b]).name by {
        if rv[a].name == rv[b].name {
            if rv[a] == rv[b] {
                vstd::seq_lib::to_multiset_remove(rv, a);
                rv.remove_ensures(a);
                assert(rv.remove(a)[b - 1] == rv[b]);
                assert(rv.remove(a).contains(rv[b]));
                assert(rv.remove(a).to_multiset().count(rv[b]) > 0);
                assert(rv.to_multiset().count(rv[a]) >= 2);
                assert(tv.to_multiset().contains(rv[a]));
                assert(tv.to_multiset().count(rv[a]) == 1);
                assert(false);
            } else {
                assert(rv.contains(rv[a]));
                assert(rv.contains(rv[b]));
                assert(tv.to_multiset().count(rv[a]) > 0);
                assert(tv.to_multiset().count(rv[b]) > 0);
                assert(tv.contains(rv[a]));
                assert(tv.contains(rv[b]));
                let i = choose|i: int| 0 <= i < tv.len() && tv[i] == rv[a];
                let j = choose|j: int| 0 <= j < tv.len() && tv[j] == rv[b];
                assert(i != j);
                if i < j {
                    assert(tv[i].name != tv[j].name);
                } else {
                    assert(tv[j].name != tv[i].name);
                }
                assert(false);
            }
        }
    }
}

impl TagAggregator {
    /// Finishes the run: the totals as one collection, sorted ascending by
    /// play count. The entries are exactly the accumulated ones — the same
    /// multiset — and among equal play counts the order is unspecified.
    pub fn into_sorted(self) -> (r: Vec<TopTag>)
        requires
            self.inv(),
        ensures
            sorted_by_count(top_tag_views(r@)),
            top_tag_views(r@).to_multiset() == self.totals_seq().to_multiset(),
            distinct_entry_names(top_tag_views(r@)),
    {
        broadcast use vstd::seq_lib::group_to_multiset_ensures;
        broadcast use vstd::multiset::group_multiset_axioms;

        let mut input = self.totals;
        let ghost orig = top_tag_views(input@);
        let mut out: Vec<TopTag> = Vec::new();
        proof {
            assert(orig == self.totals_seq());
            assert(top_tag_views(out@) =~= Seq::<TopTagView>::empty());
            assert(top_tag_views(out@).to_multiset().add(top_tag_views(input@).to_multiset())
                =~= orig.to_multiset());
        }
        while input.len() > 0
            invariant
                top_tag_views(out@).to_multiset().add(top_tag_views(input@).to_multiset())
                    == orig.to_multiset(),
                sorted_by_count(top_tag_views(out@)),
            decreases input.len(),
        {
            let ghost in_prev = top_tag_views(input@);
            let t = input.pop().unwrap();
            let ghost tv = t@;
            proof {
                assert(in_prev =~= top_tag_views(input@).push(tv));
                vstd::seq_lib::to_multiset_build(top_tag_views(input@), tv);
                assert(in_prev.to_multiset() == top_tag_views(input@).to_multiset().insert(tv));
            }
            let mut p: usize = 0;
            while p < out.len() && out[p].play_count <= t.play_count
                invariant
                    0 <= p <= out@.len(),
                    forall|q: int|
                        0 <= q < p ==> (#[trigger] top_tag_views(out@)[q]).play_count
                            <= tv.play_count,
                    tv == t@,
                decreases out@.len() - p,
            {
                p = p + 1;
            }
            let ghost out_prev = top_tag_views(out@);
            let ghost pos = p as int;
            proof {
                assert(pos == out_prev.len() || out_prev[pos].play_count > tv.play_count);
            }
            out.insert(p, t);
            proof {
                out_prev.insert_ensures(pos, tv);
                assert(top_tag_views(out@) =~= out_prev.insert(pos, tv));
                vstd::seq_lib::to_multiset_insert(out_prev, pos, tv);
                assert(top_tag_views(out@).to_multiset().add(top_tag_views(input@).to_multiset())
                    =~= orig.to_multiset());
                assert forall|a: int, b: int|
                    0 <= a < b < top_tag_views(out@).len() implies (
                #[trigger] top_tag_views(out@)[a]).play_count <= (
                #[trigger] top_tag_views(out@)[b]).play_count by {
                    let s = top_tag_views(out@);
                    if b < pos {
                        assert(s[a] == out_prev[a] && s[b] == out_prev[b]);
                    } else if b == pos {
                        assert(s[b] == tv);
                        assert(s[a] == out_prev[a]);
                    } else {
                        assert(s[b] == out_prev[b - 1]);
                        if a < pos {
                            assert(s[a] == out_prev[a]);
                            if pos <= b - 1 && pos < out_prev.len() {
                                assert(out_prev[a].play_count <= out_prev[b - 1].play_count);
                            }
                        } else if a == pos {
                            assert(s[a] == tv);
                            assert(out_prev[pos].play_count > tv.play_count);
                            assert(out_prev[b - 1].play_count >= out_prev[pos].play_count);
                        } else {
                            assert(s[a] == out_prev[a - 1]);
                        }
                    }
                }
            }
        }
        proof {
            assert(top_tag_views(input@) =~= Seq::<TopTagView>::empty());
            assert(top_tag_views(out@).to_multiset().add(top_tag_views(input@).to_multiset())
                =~= top_tag_views(out@).to_multiset());
            assert(distinct_entry_names(orig));
            lemma_permutation_keeps_names_distinct(top_tag_views(out@), orig);
        }
        out
    }
}

/// A failed fetch leaves every tag name's total and its presence in the
/// aggregate exactly as they were.
pub proof fn lemma_failure_contributes_nothing(
    outs: Seq<OutcomeView>,
    playcount: u32,
    name: Seq<char>,
)
    ensures
        weight(outs.push(OutcomeView { playcount, tags: None }), name) == weight(outs, name),
        observed(outs.push(OutcomeView { playcount, tags: None }), name) == observed(outs, name),
{
    let o = OutcomeView { playcount, tags: None };
    lemma_weight_push(outs, o, name);
    lemma_observed_push(outs, o, name);
}

/// The aggregate is exact: it holds an entry for a tag name exactly when
/// some successful fetch returned that name, the entry is unique, and it
/// carries precisely the name's accumulated weight.
pub proof fn lemma_aggregate_exact(agg: TagAggregator, name: Seq<char>)
    requires
        agg.inv(),
    ensures
        observed(agg.outcomes(), name) <==> has_name(agg.totals_seq(), name),
        forall|a: int|
            0 <= a < agg.totals_seq().len() && (#[trigger] agg.totals_seq()[a]).name == name
                ==> agg.totals_seq()[a].play_count == weight(agg.outcomes(), name),
        forall|a: int, b: int|
            0 <= a < agg.totals_seq().len() && 0 <= b < agg.totals_seq().len() && (
            #[trigger] agg.totals_seq()[a]).name == name && (#[trigger] agg.totals_seq()[b]).name
                == name ==> a == b,
{
    if has_name(agg.totals_seq(), name) {
        let a = choose|a: int|
            0 <= a < agg.totals_seq().len() && (#[trigger] agg.totals_seq()[a]).name == name;
        assert(observed(agg.outcomes(), (agg.totals_seq()[a]).name));
    }
}

pub open spec fn distinct_tag_names(ts: Seq<TagView>) -> bool {
    forall|a: int, b: int|
        0 <= a < b < ts.len() ==> (#[trigger] ts[a]).name != (#[trigger] ts[b]).name
}

pub open spec fn outcome_tags_distinct(o: OutcomeView) -> bool {
    match o.tags {
        Some(ts) => distinct_tag_names(ts),
        None => true,
    }
}

/// Summing one play count per successful outcome that mentions a name.
pub open spec fn simple_weight(outs: Seq<OutcomeView>, name: Seq<char>) -> int
    decreases outs.len(),
{
    if outs.len() == 0 {
        0
    } else {
        simple_weight(outs.drop_last(), name) + (if outcome_mentions(outs.last(), name) {
            outs.last().playcount as int
        } else {
            0int
        })
    }
}

proof fn lemma_occ_at_most_one(ts: Seq<TagView>, name: Seq<char>)
    requires
        distinct_tag_names(ts),
    ensures
        occurrences(ts, name) <= 1,
    decreases ts.len(),
{
    if ts.len() > 0 {
        let dl = ts.drop_last();
        assert(distinct_tag_names(dl));
        lemma_occ_at_most_one(dl, name);
        lemma_occ_nonneg(dl, name);
        if ts.last().name == name {
            assert forall|j: int| 0 <= j < dl.len() implies (#[trigger] dl[j]).name != name by {
                assert((ts[j]).name != (ts[ts.len() - 1]).name);
            }
            lemma_occ_pos_iff(dl, name);
        }
    }
}

/// When each successful response lists every tag name at most once — as the
/// upstream API does — a name's weight is exactly the sum of the play
/// counts of the artists whose successful fetch returned that name.
pub proof fn lemma_weight_is_artist_sum(outs: Seq<OutcomeView>, name: Seq<char>)
    requires
        forall|i: int| 0 <= i < outs.len() ==> outcome_tags_distinct(#[trigger] outs[i]),
    ensures
        weight(outs, name) == simple_weight(outs, name),
    decreases outs.len(),
{
    if outs.len() > 0 {
        let dl = outs.drop_last();
        assert(forall|i: int| 0 <= i < dl.len() ==> outcome_tags_distinct(#[trigger] dl[i]));
        lemma_weight_is_artist_sum(dl, name);
        let o = outs.last();
        assert(outcome_tags_distinct(outs[outs.len() - 1]));
        match o.tags {
            Some(ts) => {
                lemma_occ_at_most_one(ts, name);
                lemma_occ_nonneg(ts, name);
                lemma_occ_pos_iff(ts, name);
                if outcome_mentions(o, name) {
                    assert(occurrences(ts, name) == 1);
                } else {
                    assert(occurrences(ts, name) == 0);
                    lemma_mul_zero(o.playcount as int, occurrences(ts, name));
                }
            },
            None => {},
        }
    }
}

} // verus!
