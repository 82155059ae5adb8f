//! The staged move-ordering stream. One instance is built per search node and
//! pulled until the caller has seen enough: the hash move first, then capture
//! candidates (and the killer) by descending score, then quiet moves, then the
//! deferred underpromotions. Each pull removes exactly one move from the
//! multiset the stream still owes, so a full drain yields `remaining()` of the
//! fresh instance — which `new` pins to `stream_total`.

use vstd::prelude::*;
use vstd::multiset::Multiset;
use vstd::pervasive::unreached;
use crate::model::{
    bit, bit_set, expand_group, group_wf, is_underpromotion, lemma_bb_moves_all, move_in_range,
    piece_ordinal, underpromotes, LegalMoves, Move, MoveGroup, Piece,
};
use crate::counting::{
    built_pairs, built_quiet_rem, built_under, cap_pairs_of, caps_entries_ok, caps_moves, emit_mset,
    group_cap_list, group_pairs, group_quiet_moves, hm_mset, is_first_max, killer_hits,
    lemma_caps_contains,
    lemma_caps_push, lemma_caps_swap_remove, lemma_cap_pairs_entries, lemma_emit_skip_step,
    lemma_mset_push, lemma_under_entries, mset_of, norm_killer, pend_all, pruned_to, stream_total, under_seq_of,
    victim_score,
};

verus! {

/// The five phases of the stream, in order.
#[derive(Clone, Copy, PartialEq, Eq, Structural, Debug)]
pub enum Stage {
    Hashmove,
    PrepareCaptures,
    Captures,
    Quiets,
    Underpromotions,
}

pub open spec fn stage_index(s: Stage) -> int {
    match s {
        Stage::Hashmove => 0,
        Stage::PrepareCaptures => 1,
        Stage::Captures => 2,
        Stage::Quiets => 3,
        Stage::Underpromotions => 4,
    }
}

/// One origin's not-yet-drained quiet moves: the raw sequence and a cursor.
pub struct QuietGroup {
    pub moves: Vec<Move>,
    pub idx: usize,
}

/// What the quiet stack still owes: per group, the moves past the cursor,
/// minus hash-move occurrences.
pub open spec fn quiets_rem(qs: Seq<QuietGroup>, hm: Option<Move>) -> Multiset<Move>
    decreases qs.len(),
{
    if qs.len() == 0 {
        Multiset::empty()
    } else {
        quiets_rem(qs.drop_last(), hm).add(
            emit_mset(qs.last().moves@.skip(qs.last().idx as int), hm),
        )
    }
}

/// A termination measure for draining the quiet stack.
pub open spec fn qmeasure(qs: Seq<QuietGroup>) -> int
    decreases qs.len(),
{
    if qs.len() == 0 {
        0
    } else {
        qmeasure(qs.drop_last()) + 1 + qs.last().moves@.len() - qs.last().idx
    }
}

/// The plain view of the quiet stack: each group's raw move sequence and its
/// cursor.
pub open spec fn stack_view(qs: Seq<QuietGroup>) -> Seq<(Seq<Move>, int)> {
    Seq::new(qs.len(), |i: int| (qs[i].moves@, qs[i].idx as int))
}

/// One pull of the quiet stage, over the plain view: serve from the most
/// recently pushed group first, in the raw sequence's order; skip hash-move
/// occurrences; divert underpromotions to the reservoir; pop exhausted
/// groups; and once the stack is empty, pop the most recently deferred
/// underpromotion. Returns the yield and the new stack and reservoir views.
pub open spec fn quiet_step(
    sv: Seq<(Seq<Move>, int)>,
    under: Seq<Move>,
    hm: Option<Move>,
) -> (Option<Move>, Seq<(Seq<Move>, int)>, Seq<Move>)
    decreases sv.len(), (if sv.len() > 0 && 0 <= sv.last().1 < sv.last().0.len() {
        sv.last().0.len() - sv.last().1
    } else {
        0
    }),
{
    if sv.len() == 0 {
        if under.len() == 0 {
            (None, sv, under)
        } else {
            (Some(under.last()), sv, under.drop_last())
        }
    } else {
        let top = sv.last();
        if !(0 <= top.1 < top.0.len()) {
            quiet_step(sv.drop_last(), under, hm)
        } else {
            let m = top.0[top.1];
            let sv2 = sv.update(sv.len() - 1, (top.0, top.1 + 1));
            if Some(m) == hm {
                quiet_step(sv2, under, hm)
            } else if is_underpromotion(m) {
                quiet_step(sv2, under.push(m), hm)
            } else {
                (Some(m), sv2, under)
            }
        }
    }
}

/// The quiet-stack view the single pass builds: one group per origin packet,
/// in generation order, cursors at the start.
pub open spec fn fresh_stack_view(gs: Seq<MoveGroup>, k: Move, enemy: u64) -> Seq<(Seq<Move>, int)> {
    Seq::new(gs.len(), |i: int| (group_quiet_moves(gs[i], k, enemy), 0))
}

pub proof fn lemma_qmeasure_nonneg(qs: Seq<QuietGroup>)
    requires
        forall|i: int| 0 <= i < qs.len() ==> (#[trigger] qs[i]).idx <= qs[i].moves@.len(),
    ensures
        qmeasure(qs) >= 0,
    decreases qs.len(),
{
    if qs.len() > 0 {
        assert(forall|i: int|
            0 <= i < qs.drop_last().len() ==> (#[trigger] qs.drop_last()[i]).idx
                <= qs.drop_last()[i].moves@.len());
        lemma_qmeasure_nonneg(qs.drop_last());
        assert(qs[qs.len() - 1] == qs.last());
    }
}

/// A quiet stack freshly built from the groups owes exactly what the pass
/// promised for them.
pub proof fn lemma_quiets_rem_init(
    qs: Seq<QuietGroup>,
    gs: Seq<MoveGroup>,
    enemy: u64,
    hm: Option<Move>,
    k: Move,
)
    requires
        qs.len() == gs.len(),
        forall|i: int|
            0 <= i < qs.len() ==> (#[trigger] qs[i]).moves@ == group_quiet_moves(gs[i], k, enemy)
                && qs[i].idx == 0,
    ensures
        quiets_rem(qs, hm) == built_quiet_rem(gs, enemy, hm, k),
    decreases qs.len(),
{
    if qs.len() > 0 {
        assert(forall|i: int|
            0 <= i < qs.drop_last().len() ==> (#[trigger] qs.drop_last()[i]).moves@
                == group_quiet_moves(gs.drop_last()[i], k, enemy) && qs.drop_last()[i].idx == 0);
        lemma_quiets_rem_init(qs.drop_last(), gs.drop_last(), enemy, hm, k);
        assert(qs[qs.len() - 1] == qs.last());
        assert(gs[gs.len() - 1] == gs.last());
        assert(qs.last().moves@.skip(0) =~= qs.last().moves@);
        assert(quiets_rem(qs, hm) =~= built_quiet_rem(gs, enemy, hm, k));
    }
}

/// The staged stream over one position's legal moves.
pub struct MoveOrdering {
    pub stage: Stage,
    pub hashmove: Option<Move>,
    pub killer: Move,
    pub enemy: u64,
    pub occupants: Vec<Option<Piece>>,
    pub pending: Vec<MoveGroup>,
    pub captures: Vec<(Move, i8)>,
    pub quiets: Vec<QuietGroup>,
    pub underpromotions: Vec<Move>,
}

/// The hint fields two states share: a pull never changes them.
pub open spec fn same_config(a: MoveOrdering, b: MoveOrdering) -> bool {
    &&& a.hashmove == b.hashmove
    &&& a.killer == b.killer
    &&& a.enemy == b.enemy
    &&& a.occupants@ == b.occupants@
}

impl MoveOrdering {
    pub open spec fn hints_wf(self) -> bool {
        &&& self.killer.from < 64
        &&& self.killer.to < 64
        &&& self.occupants@.len() == 64
        &&& forall|sq: int|
            0 <= sq < 64 && bit(self.enemy, sq) ==> (#[trigger] self.occupants@[sq]).is_some()
    }

    pub open spec fn buffers_wf(self) -> bool {
        &&& forall|i: int| 0 <= i < self.pending@.len() ==> group_wf(#[trigger] self.pending@[i])
        &&& forall|i: int|
            0 <= i < self.quiets@.len() ==> (#[trigger] self.quiets@[i]).idx
                <= self.quiets@[i].moves@.len()
        &&& forall|i: int|
            0 <= i < self.underpromotions@.len() ==> is_underpromotion(
                #[trigger] self.underpromotions@[i],
            ) && Some(self.underpromotions@[i]) != self.hashmove
        &&& caps_entries_ok(self.captures@, self.killer)
    }

    pub open spec fn stage_wf(self) -> bool {
        match self.stage {
            Stage::Hashmove => self.hashmove.is_some() && self.captures@.len() == 0
                && self.quiets@.len() == 0 && self.underpromotions@.len() == 0,
            Stage::PrepareCaptures => self.captures@.len() == 0 && self.quiets@.len() == 0
                && self.underpromotions@.len() == 0,
            Stage::Captures => self.pending@.len() == 0,
            Stage::Quiets => self.pending@.len() == 0 && self.captures@.len() == 0,
            Stage::Underpromotions => self.pending@.len() == 0 && self.captures@.len() == 0
                && self.quiets@.len() == 0,
        }
    }

    pub open spec fn wf(self) -> bool {
        self.hints_wf() && self.buffers_wf() && self.stage_wf()
    }

    /// The multiset of moves the stream will still yield.
    pub open spec fn remaining(self) -> Multiset<Move> {
        match self.stage {
            Stage::Hashmove => hm_mset(self.hashmove).add(
                pend_all(self.pending@, self.enemy, self.occupants@, self.hashmove, self.killer),
            ),
            Stage::PrepareCaptures => pend_all(
                self.pending@,
                self.enemy,
                self.occupants@,
                self.hashmove,
                self.killer,
            ),
            Stage::Captures => caps_moves(self.captures@).add(
                quiets_rem(self.quiets@, self.hashmove),
            ).add(mset_of(self.underpromotions@)),
            Stage::Quiets => quiets_rem(self.quiets@, self.hashmove).add(
                mset_of(self.underpromotions@),
            ),
            Stage::Underpromotions => mset_of(self.underpromotions@),
        }
    }

    /// Builds the stream for one position's legal moves and the two hints.
    /// A killer equal to the hash move is disabled by the inert sentinel; the
    /// stream starts at the hash-move phase exactly when a hash move was
    /// supplied; and the whole stream will yield exactly `stream_total`.
    pub fn new(legal: LegalMoves, hashmove: Option<Move>, killer: Move) -> (r: MoveOrdering)
        requires
            legal.wf(),
            move_in_range(killer),
        ensures
            r.wf(),
            r.hashmove == hashmove,
            r.killer == norm_killer(hashmove, killer),
            r.stage == (if hashmove is Some {
                Stage::Hashmove
            } else {
                Stage::PrepareCaptures
            }),
            r.remaining() == stream_total(legal, hashmove, killer),
            r.pending@ == legal.groups@,
            r.enemy == legal.enemy,
            r.occupants@ == legal.occupants@,
    {
        let stage = match hashmove {
            Some(_) => Stage::Hashmove,
            None => Stage::PrepareCaptures,
        };
        let k = if matches_hash(&hashmove, killer) {
            Move { from: 0, to: 0, promotion: None }
        } else {
            killer
        };
        let r = MoveOrdering {
            stage,
            hashmove,
            killer: k,
            enemy: legal.enemy,
            occupants: legal.occupants,
            pending: legal.groups,
            captures: Vec::new(),
            quiets: Vec::new(),
            underpromotions: Vec::new(),
        };
        proof {
            assert(k == norm_killer(hashmove, killer));
            if hashmove is None {
                assert(hm_mset(hashmove) == Multiset::<Move>::empty());
                assert(r.remaining() =~= stream_total(legal, hashmove, killer));
            }
        }
        r
    }

    fn serve_under(&mut self) -> (r: Option<Move>)
        requires
            old(self).wf(),
            old(self).stage == Stage::Underpromotions,
        ensures
            final(self).wf(),
            same_config(*old(self), *final(self)),
            final(self).stage == Stage::Underpromotions,
            (match r {
                Some(m) => old(self).underpromotions@.len() > 0 && m == old(self).underpromotions@.last() && final(self).underpromotions@ == old(self).underpromotions@.drop_last() && old(self).remaining().count(m) >= 1 && final(self).remaining() == old(self).remaining().remove(m) && is_underpromotion(m) && Some(m)
                    != old(self).hashmove,
                None => old(self).underpromotions@.len() == 0 && final(self).underpromotions@
                    == old(self).underpromotions@ && old(self).remaining()
                    == Multiset::<Move>::empty() && final(self).remaining()
                    == Multiset::<Move>::empty(),
            }),
    {
        let r = self.underpromotions.pop();
        proof {
            match r {
                Some(m) => {
                    assert(old(self).underpromotions@.last() == m);
                    assert(old(self).underpromotions@.drop_last() == self.underpromotions@);
                    assert(mset_of(old(self).underpromotions@) == mset_of(
                        self.underpromotions@,
                    ).insert(m));
                    assert(final(self).remaining() =~= old(self).remaining().remove(m));
                },
                None => {
                    assert(old(self).underpromotions@.len() == 0);
                },
            }
        }
        r
    }

    fn serve_quiets(&mut self) -> (r: Option<Move>)
        requires
            old(self).wf(),
            old(self).stage == Stage::Quiets,
        ensures
            final(self).wf(),
            same_config(*old(self), *final(self)),
            stage_index(final(self).stage) >= 3,
            (match r {
                Some(m) => old(self).remaining().count(m) >= 1 && final(self).remaining()
                    == old(self).remaining().remove(m) && (is_underpromotion(m) ==> final(self).stage == Stage::Underpromotions) && Some(m) != old(self).hashmove,
                None => old(self).remaining() == Multiset::<Move>::empty() && final(self).remaining() == Multiset::<Move>::empty(),
            }),
            ({
                let step = quiet_step(
                    stack_view(old(self).quiets@),
                    old(self).underpromotions@,
                    old(self).hashmove,
                );
                r == step.0 && stack_view(final(self).quiets@) == step.1 && final(self).underpromotions@ == step.2
            }),
    {
        let ghost pre = *self;
        loop
            invariant
                pre == *old(self),
                self.wf(),
                self.stage == Stage::Quiets,
                same_config(pre, *self),
                pre.wf(),
                self.remaining() == pre.remaining(),
                quiet_step(stack_view(self.quiets@), self.underpromotions@, self.hashmove)
                    == quiet_step(
                    stack_view(pre.quiets@),
                    pre.underpromotions@,
                    pre.hashmove,
                ),
            decreases qmeasure(self.quiets@),
        {
            proof {
                lemma_qmeasure_nonneg(self.quiets@);
            }
            if self.quiets.len() == 0 {
                self.stage = Stage::Underpromotions;
                let ghost u_here = self.underpromotions@;
                proof {
                    assert(quiets_rem(Seq::<QuietGroup>::empty(), self.hashmove)
                        == Multiset::<Move>::empty());
                    assert(self.remaining() =~= pre.remaining());
                    assert(stack_view(self.quiets@) =~= Seq::<(Seq<Move>, int)>::empty());
                }
                let r = self.serve_under();
                proof {
                    assert(stack_view(self.quiets@) =~= Seq::<(Seq<Move>, int)>::empty());
                    assert(quiet_step(Seq::<(Seq<Move>, int)>::empty(), u_here, self.hashmove)
                        == (r, stack_view(self.quiets@), self.underpromotions@));
                }
                return r;
            }
            let ghost qs0 = self.quiets@;
            let ghost u_pre = self.underpromotions@;
            let grp_opt = self.quiets.pop();
            let mut grp = match grp_opt {
                Some(g) => g,
                None => unreached(),
            };
            proof {
                assert(qs0.drop_last() == self.quiets@);
                assert(qs0.last() == grp);
            }
            if grp.idx >= grp.moves.len() {
                proof {
                    assert(grp.moves@.skip(grp.idx as int) =~= Seq::<Move>::empty());
                    assert(emit_mset(grp.moves@.skip(grp.idx as int), self.hashmove)
                        == Multiset::<Move>::empty());
                    assert(quiets_rem(qs0, self.hashmove) =~= quiets_rem(
                        self.quiets@,
                        self.hashmove,
                    ));
                    assert(self.remaining() =~= pre.remaining());
                    lemma_qmeasure_nonneg(self.quiets@);
                    assert(stack_view(qs0).last() == (grp.moves@, grp.idx as int));
                    assert(stack_view(self.quiets@) =~= stack_view(qs0).drop_last());
                }
                continue;
            }
            let m = grp.moves[grp.idx];
            let ghost j = grp.idx as int;
            grp.idx = grp.idx + 1;
            self.quiets.push(grp);
            proof {
                assert(self.quiets@.drop_last() == qs0.drop_last());
                assert(self.quiets@.last() == grp);
                lemma_emit_skip_step(grp.moves@, j, self.hashmove);
                lemma_qmeasure_nonneg(self.quiets@.drop_last());
                assert(stack_view(qs0).last() == (grp.moves@, j));
                assert(stack_view(qs0).last().0[j] == m);
                assert(stack_view(self.quiets@) =~= stack_view(qs0).update(
                    stack_view(qs0).len() - 1,
                    (grp.moves@, j + 1),
                ));
            }
            if matches_hash(&self.hashmove, m) {
                proof {
                    assert(quiets_rem(qs0, self.hashmove) =~= quiets_rem(
                        self.quiets@,
                        self.hashmove,
                    ));
                    assert(self.remaining() =~= pre.remaining());
                }
                continue;
            }
            proof {
                assert(quiets_rem(qs0, self.hashmove) =~= quiets_rem(
                    self.quiets@,
                    self.hashmove,
                ).insert(m));
            }
            if underpromotes(&m) {
                let ghost u0 = self.underpromotions@;
                self.underpromotions.push(m);
                proof {
                    lemma_mset_push(u0, m);
                    assert(self.remaining() =~= pre.remaining());
                }
                continue;
            }
            proof {
                assert(pre.remaining().count(m) >= 1);
                assert(self.remaining() =~= pre.remaining().remove(m));
                assert(quiet_step(stack_view(qs0), u_pre, self.hashmove)
                    == (Some(m), stack_view(self.quiets@), self.underpromotions@));
            }
            return Some(m);
        }
    }

    fn serve_captures(&mut self) -> (r: Option<Move>)
        requires
            old(self).wf(),
            old(self).stage == Stage::Captures,
        ensures
            final(self).wf(),
            same_config(*old(self), *final(self)),
            stage_index(final(self).stage) >= 2,
            (match r {
                Some(m) => old(self).remaining().count(m) >= 1 && final(self).remaining()
                    == old(self).remaining().remove(m) && ((is_underpromotion(m) && Some(m)
                    != old(self).hashmove && m != old(self).killer) ==> final(self).stage
                    == Stage::Underpromotions),
                None => old(self).remaining() == Multiset::<Move>::empty() && final(self).remaining() == Multiset::<Move>::empty(),
            }),
            old(self).captures@.len() > 0 ==> final(self).stage == Stage::Captures && final(self).quiets@ == old(self).quiets@ && final(self).underpromotions@ == old(self).underpromotions@ && (exists|i: int|
                is_first_max(old(self).captures@, i) && r == Some(
                    (#[trigger] old(self).captures@[i]).0,
                ) && final(self).captures@ == old(self).captures@.update(
                    i,
                    old(self).captures@.last(),
                ).drop_last()),
            old(self).captures@.len() == 0 ==> final(self).captures@.len() == 0 && ({
                let step = quiet_step(
                    stack_view(old(self).quiets@),
                    old(self).underpromotions@,
                    old(self).hashmove,
                );
                r == step.0 && stack_view(final(self).quiets@) == step.1 && final(self).underpromotions@ == step.2
            }),
    {
        if self.captures.len() == 0 {
            self.stage = Stage::Quiets;
            proof {
                assert(caps_moves(Seq::<(Move, i8)>::empty()) == Multiset::<Move>::empty());
                assert(self.remaining() =~= old(self).remaining());
            }
            let r = self.serve_quiets();
            return r;
        }
        let mut index: usize = 0;
        let mut i: usize = 1;
        while i < self.captures.len()
            invariant
                index < i,
                1 <= i <= self.captures@.len(),
                forall|j: int|
                    0 <= j < i ==> (#[trigger] self.captures@[j]).1
                        <= self.captures@[index as int].1,
                forall|j: int|
                    0 <= j < index ==> (#[trigger] self.captures@[j]).1
                        < self.captures@[index as int].1,
            decreases self.captures@.len() - i,
        {
            if self.captures[i].1 > self.captures[index].1 {
                index = i;
            }
            i = i + 1;
        }
        proof {
            lemma_caps_contains(self.captures@, index as int);
            lemma_caps_swap_remove(self.captures@, index as int);
        }
        let c = self.captures.swap_remove(index);
        proof {
            assert(self.remaining() =~= old(self).remaining().remove(c.0));
        }
        Some(c.0)
    }

    fn prepare_captures(&mut self) -> (r: Option<Move>)
        requires
            old(self).wf(),
            old(self).stage == Stage::PrepareCaptures,
        ensures
            final(self).wf(),
            same_config(*old(self), *final(self)),
            stage_index(final(self).stage) >= 2,
            (match r {
                Some(m) => old(self).remaining().count(m) >= 1 && final(self).remaining()
                    == old(self).remaining().remove(m) && ((is_underpromotion(m) && Some(m)
                    != old(self).hashmove && m != old(self).killer) ==> final(self).stage
                    == Stage::Underpromotions),
                None => old(self).remaining() == Multiset::<Move>::empty() && final(self).remaining() == Multiset::<Move>::empty(),
            }),
            ({
                let built = built_pairs(
                    old(self).pending@,
                    old(self).enemy,
                    old(self).occupants@,
                    old(self).hashmove,
                    old(self).killer,
                );
                let bunder = built_under(
                    old(self).pending@,
                    old(self).enemy,
                    old(self).hashmove,
                    old(self).killer,
                );
                let fresh = fresh_stack_view(old(self).pending@, old(self).killer, old(self).enemy);
                if built.len() > 0 {
                    final(self).stage == Stage::Captures && final(self).underpromotions@ == bunder
                        && stack_view(final(self).quiets@) == fresh && (exists|i: int|
                        is_first_max(built, i) && r == Some((#[trigger] built[i]).0) && final(self).captures@ == built.update(i, built.last()).drop_last())
                } else {
                    final(self).captures@.len() == 0 && ({
                        let step = quiet_step(fresh, bunder, old(self).hashmove);
                        r == step.0 && stack_view(final(self).quiets@) == step.1 && final(self).underpromotions@ == step.2
                    })
                }
            }),
    {
        let ghost pre = *self;
        let ghost gs = self.pending@;
        let ghost hm = self.hashmove;
        let ghost k = self.killer;
        self.stage = Stage::Captures;
        let n = self.pending.len();
        let mut gi: usize = 0;
        while gi < n
            invariant
                gi <= n,
                self.stage == Stage::Captures,
                same_config(pre, *self),
                pre.wf(),
                self.pending@ == gs,
                n == gs.len(),
                hm == self.hashmove,
                k == self.killer,
                self.hints_wf(),
                self.buffers_wf(),
                self.captures@ == built_pairs(
                    gs.take(gi as int),
                    self.enemy,
                    self.occupants@,
                    hm,
                    k,
                ),
                self.underpromotions@ == built_under(gs.take(gi as int), self.enemy, hm, k),
                self.quiets@.len() == gi,
                forall|t: int|
                    0 <= t < gi ==> (#[trigger] self.quiets@[t]).moves@ == group_quiet_moves(
                        gs[t],
                        k,
                        self.enemy,
                    ) && self.quiets@[t].idx == 0,
            decreases n - gi,
        {
            let g = self.pending[gi];
            proof {
                assert(group_wf(g));
            }
            let khit = self.killer.from == g.from && bit_set(g.to, self.killer.to);
            let mut to2 = g.to;
            if khit {
                let ghost caps_pre = self.captures@;
                self.captures.push((self.killer, 0));
                proof {
                    lemma_caps_push(caps_pre, (k, 0i8));
                }
                if matches!(self.killer.promotion, None) {
                    to2 = g.to & !(1u64 << (self.killer.to as u64));
                }
            }
            proof {
                assert(khit == killer_hits(g, k));
                assert(to2 == pruned_to(g, k));
            }
            let en = self.enemy;
            let qb = to2 & !en;
            let cb = to2 & en;
            let qmoves = expand_group(g.piece, g.from, qb);
            self.quiets.push(QuietGroup { moves: qmoves, idx: 0 });
            let clist = expand_group(g.piece, g.from, cb);
            proof {
                lemma_bb_moves_all(g.piece, g.from, cb);
                assert forall|t: int| 0 <= t < clist@.len() implies (#[trigger] clist@[t]).to < 64
                    && bit(self.enemy, clist@[t].to as int) by {
                    let tt = clist@[t].to as u64;
                    assert(cb == to2 & en ==> (((cb >> tt) & 1u64 == 1u64) ==> ((en >> tt) & 1u64
                        == 1u64))) by (bit_vector);
                }
                assert(forall|t: int|
                    0 <= t < clist@.len() ==> (#[trigger] self.occupants@[clist@[t].to as int])
                        .is_some());
            }
            let ghost caps_before = self.captures@;
            let ghost under_before = self.underpromotions@;
            self.scan_captures(g.piece, &clist);
            proof {
                assert(gs.take(gi as int + 1).drop_last() =~= gs.take(gi as int));
                assert(gs.take(gi as int + 1).last() == gs[gi as int]);
                assert(self.captures@ =~= built_pairs(
                    gs.take(gi as int + 1),
                    self.enemy,
                    self.occupants@,
                    hm,
                    k,
                )) by {
                    assert(group_pairs(g, self.enemy, self.occupants@, hm, k) == (if killer_hits(
                        g,
                        k,
                    ) {
                        seq![(k, 0i8)]
                    } else {
                        Seq::<(Move, i8)>::empty()
                    }) + cap_pairs_of(group_cap_list(g, k, self.enemy), g.piece, self.occupants@, hm));
                    assert(self.captures@ =~= built_pairs(gs.take(gi as int), self.enemy, self.occupants@, hm, k)
                        + group_pairs(g, self.enemy, self.occupants@, hm, k));
                }
                assert(self.underpromotions@ =~= built_under(
                    gs.take(gi as int + 1),
                    self.enemy,
                    hm,
                    k,
                ));
                lemma_cap_pairs_entries(group_cap_list(g, k, self.enemy), g.piece, self.occupants@, hm, k);
                assert(caps_entries_ok(self.captures@, k));
                lemma_under_entries(group_cap_list(g, k, self.enemy), hm);
                assert(forall|t: int|
                    0 <= t < self.underpromotions@.len() ==> is_underpromotion(
                        #[trigger] self.underpromotions@[t],
                    ) && Some(self.underpromotions@[t]) != hm);
            }
            gi = gi + 1;
        }
        proof {
            assert(gs.take(n as int) =~= gs);
        }
        self.pending = Vec::new();
        proof {
            lemma_quiets_rem_init(self.quiets@, gs, self.enemy, hm, k);
            assert(self.remaining() =~= pre.remaining());
            assert(stack_view(self.quiets@) =~= fresh_stack_view(gs, k, self.enemy));
        }
        let ghost mid = *self;
        let r = self.serve_captures();
        proof {
            assert(mid.captures@ == built_pairs(gs, pre.enemy, pre.occupants@, hm, k));
            assert(mid.underpromotions@ == built_under(gs, pre.enemy, hm, k));
            assert(stack_view(mid.quiets@) == fresh_stack_view(gs, k, pre.enemy));
        }
        r
    }

    /// Scans one group's raw capture sequence: skips the hash move, diverts
    /// underpromotions, scores and appends everything else.
    fn scan_captures(&mut self, att: Piece, clist: &Vec<Move>)
        requires
            old(self).occupants@.len() == 64,
            forall|j: int|
                0 <= j < clist@.len() ==> (#[trigger] clist@[j]).to < 64 && old(self).occupants@[clist@[j].to as int].is_some(),
        ensures
            final(self).captures@ == old(self).captures@ + cap_pairs_of(
                clist@,
                att,
                old(self).occupants@,
                old(self).hashmove,
            ),
            final(self).underpromotions@ == old(self).underpromotions@ + under_seq_of(
                clist@,
                old(self).hashmove,
            ),
            final(self).stage == old(self).stage,
            final(self).hashmove == old(self).hashmove,
            final(self).killer == old(self).killer,
            final(self).enemy == old(self).enemy,
            final(self).occupants@ == old(self).occupants@,
            final(self).pending@ == old(self).pending@,
            final(self).quiets@ == old(self).quiets@,
    {
        let ghost caps0 = self.captures@;
        let ghost under0 = self.underpromotions@;
        let ghost occ = self.occupants@;
        let ghost hm = self.hashmove;
        let ghost pre = *self;
        let mut j: usize = 0;
        while j < clist.len()
            invariant
                j <= clist@.len(),
                same_config(pre, *self),
                self.stage == pre.stage,
                self.pending@ == pre.pending@,
                self.quiets@ == pre.quiets@,
                self.killer == pre.killer,
                occ == self.occupants@,
                hm == self.hashmove,
                occ.len() == 64,
                forall|t: int|
                    0 <= t < clist@.len() ==> (#[trigger] clist@[t]).to < 64
                        && occ[clist@[t].to as int].is_some(),
                self.captures@ == caps0 + cap_pairs_of(clist@.take(j as int), att, occ, hm),
                self.underpromotions@ == under0 + under_seq_of(clist@.take(j as int), hm),
            decreases clist@.len() - j,
        {
            let m = clist[j];
            proof {
                assert(clist@.take(j as int + 1).drop_last() =~= clist@.take(j as int));
                assert(clist@.take(j as int + 1).last() == m);
            }
            if matches_hash(&self.hashmove, m) {
                proof {
                    assert(self.captures@ =~= caps0 + cap_pairs_of(
                        clist@.take(j as int + 1),
                        att,
                        occ,
                        hm,
                    ));
                    assert(self.underpromotions@ =~= under0 + under_seq_of(
                        clist@.take(j as int + 1),
                        hm,
                    ));
                }
            } else if underpromotes(&m) {
                self.underpromotions.push(m);
                proof {
                    assert(self.underpromotions@ =~= under0 + under_seq_of(
                        clist@.take(j as int + 1),
                        hm,
                    ));
                    assert(self.captures@ =~= caps0 + cap_pairs_of(
                        clist@.take(j as int + 1),
                        att,
                        occ,
                        hm,
                    ));
                }
            } else {
                let att_ord = piece_ordinal(att);
                let vic = match self.occupants[m.to as usize] {
                    Some(p) => p,
                    None => unreached(),
                };
                let vic_ord = piece_ordinal(vic);
                let score: i8 = vic_ord * 4 - att_ord;
                self.captures.push((m, score));
                proof {
                    assert(score == victim_score(att, occ[m.to as int]));
                    assert(self.captures@ =~= caps0 + cap_pairs_of(
                        clist@.take(j as int + 1),
                        att,
                        occ,
                        hm,
                    ));
                    assert(self.underpromotions@ =~= under0 + under_seq_of(
                        clist@.take(j as int + 1),
                        hm,
                    ));
                }
            }
            j = j + 1;
        }
        proof {
            assert(clist@.take(clist@.len() as int) =~= clist@);
        }
    }

    /// One pull. Yields the next move of the stream, or nothing once the
    /// stream is exhausted. Every pull removes exactly one copy of the yielded
    /// move from `remaining()`; the stage only advances; the hash move, when
    /// present, comes first and the phase order puts every underpromotion
    /// (other than the hints themselves) after all captures and quiets.
    /// Within the phases the yield and the new buffers are pinned exactly: a
    /// capture pull serves the first maximal-score candidate and swap-removes
    /// it; a quiet pull follows `quiet_step` (top group first, raw order
    /// within, hash move skipped, underpromotions deferred); a reservoir pull
    /// pops the most recently deferred underpromotion. Two equally built
    /// streams therefore yield identical sequences.
    pub fn next(&mut self) -> (r: Option<Move>)
        requires
            old(self).wf(),
        ensures
            final(self).wf(),
            same_config(*old(self), *final(self)),
            stage_index(old(self).stage) <= stage_index(final(self).stage),
            (match r {
                Some(m) => old(self).remaining().count(m) >= 1 && final(self).remaining()
                    == old(self).remaining().remove(m),
                None => old(self).remaining() == Multiset::<Move>::empty() && final(self).remaining() == Multiset::<Move>::empty(),
            }),
            old(self).stage == Stage::Hashmove ==> r == old(self).hashmove && final(self).stage
                == Stage::PrepareCaptures && final(self).pending@ == old(self).pending@,
            (match r {
                Some(m) => (is_underpromotion(m) && Some(m) != old(self).hashmove && m != old(self).killer) ==> final(self).stage == Stage::Underpromotions,
                None => true,
            }),
            old(self).stage == Stage::Captures && old(self).captures@.len() > 0 ==> final(self).stage == Stage::Captures && final(self).quiets@ == old(self).quiets@ && final(self).underpromotions@ == old(self).underpromotions@ && (exists|i: int|
                is_first_max(old(self).captures@, i) && r == Some(
                    (#[trigger] old(self).captures@[i]).0,
                ) && final(self).captures@ == old(self).captures@.update(
                    i,
                    old(self).captures@.last(),
                ).drop_last()),
            old(self).stage == Stage::PrepareCaptures ==> stage_index(final(self).stage) >= 2,
            old(self).stage == Stage::Quiets ==> ({
                let step = quiet_step(
                    stack_view(old(self).quiets@),
                    old(self).underpromotions@,
                    old(self).hashmove,
                );
                r == step.0 && stack_view(final(self).quiets@) == step.1 && final(self).underpromotions@ == step.2
            }),
            old(self).stage == Stage::Underpromotions ==> (match r {
                Some(m) => old(self).underpromotions@.len() > 0 && m == old(self).underpromotions@.last()
                    && final(self).underpromotions@ == old(self).underpromotions@.drop_last(),
                None => old(self).underpromotions@.len() == 0,
            }),
            (match r {
                Some(m) => (stage_index(old(self).stage) >= 3 && is_underpromotion(m))
                    ==> final(self).stage == Stage::Underpromotions,
                None => true,
            }),
            old(self).stage == Stage::PrepareCaptures ==> ({
                let built = built_pairs(
                    old(self).pending@,
                    old(self).enemy,
                    old(self).occupants@,
                    old(self).hashmove,
                    old(self).killer,
                );
                let bunder = built_under(
                    old(self).pending@,
                    old(self).enemy,
                    old(self).hashmove,
                    old(self).killer,
                );
                let fresh = fresh_stack_view(old(self).pending@, old(self).killer, old(self).enemy);
                if built.len() > 0 {
                    final(self).stage == Stage::Captures && final(self).underpromotions@ == bunder
                        && stack_view(final(self).quiets@) == fresh && (exists|i: int|
                        is_first_max(built, i) && r == Some((#[trigger] built[i]).0) && final(self).captures@ == built.update(i, built.last()).drop_last())
                } else {
                    final(self).captures@.len() == 0 && ({
                        let step = quiet_step(fresh, bunder, old(self).hashmove);
                        r == step.0 && stack_view(final(self).quiets@) == step.1 && final(self).underpromotions@ == step.2
                    })
                }
            }),
    {
        match self.stage {
            Stage::Hashmove => {
                self.stage = Stage::PrepareCaptures;
                proof {
                    let h = old(self).hashmove.unwrap();
                    assert(old(self).remaining().count(h) >= 1);
                    assert(self.remaining() =~= old(self).remaining().remove(h));
                }
                self.hashmove
            },
            Stage::PrepareCaptures => self.prepare_captures(),
            Stage::Captures => self.serve_captures(),
            Stage::Quiets => self.serve_quiets(),
            Stage::Underpromotions => self.serve_under(),
        }
    }

    /// Pulls the stream dry: the returned vector carries, as a multiset,
    /// exactly what the stream still owed.
    pub fn drain(&mut self) -> (r: Vec<Move>)
        requires
            old(self).wf(),
        ensures
            final(self).wf(),
            final(self).remaining() == Multiset::<Move>::empty(),
            mset_of(r@) == old(self).remaining(),
    {
        let ghost orig = *self;
        let mut out: Vec<Move> = Vec::new();
        loop
            invariant
                orig == *old(self),
                self.wf(),
                mset_of(out@).add(self.remaining()) == orig.remaining(),
            decreases self.remaining().len(),
        {
            let step = self.next();
            match step {
                Some(m) => {
                    let ghost out0 = out@;
                    out.push(m);
                    proof {
                        lemma_mset_push(out0, m);
                        assert(mset_of(out@).add(self.remaining()) =~= orig.remaining());
                    }
                },
                None => {
                    proof {
                        assert(mset_of(out@).add(self.remaining()) =~= mset_of(out@));
                    }
                    return out;
                },
            }
        }
    }
}

/// Structural comparison of a move against the optional hash move.
pub fn matches_hash(hm: &Option<Move>, m: Move) -> (r: bool)
    ensures
        r == (Some(m) == *hm),
{
    match hm {
        Some(h) => *h == m,
        None => false,
    }
}

} // verus!
